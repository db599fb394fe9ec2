//! What holds of clipped scores and of their weighted average.

use crate::average;
use crate::binary64;
use crate::binary64::Binary64;
use crate::rounding;
use crate::rounding::{EXPONENT_STEP, INFINITY_CODE, ONE_EXPONENT};
use vstd::arithmetic::power2::*;
use vstd::prelude::*;

verus! {

/// Whether two results differ at most in the sign of zero.
pub open spec fn same(a: Binary64, b: Binary64) -> bool {
    (a.is_nan() && b.is_nan()) || a.equals(b)
}

/// Equal numbers that are not zero are the same encoding.
proof fn lemma_equal_bits(a: Binary64, b: Binary64)
    requires
        a.equals(b),
        a.value() != 0,
    ensures
        a == b,
{
    rounding::lemma_magnitude_order(a.code(), b.code());
    binary64::lemma_zero_code(a);
    binary64::lemma_zero_code(b);
}

/// A sum is unchanged, but for the sign of zero, when a summand is.
proof fn lemma_same_sum(a: Binary64, a2: Binary64, b: Binary64)
    requires
        same(a, a2),
    ensures
        same(a.sum(b), a2.sum(b)),
{
    binary64::lemma_one_value();
    if !a.is_nan() {
        if a.value() != 0 {
            lemma_equal_bits(a, a2);
        } else {
            binary64::lemma_zero_code(a);
            binary64::lemma_zero_code(a2);
        }
    }
}

/// Adding a zero changes nothing but the sign of zero.
proof fn lemma_sum_zero(a: Binary64, z: Binary64)
    requires
        z.equals(Binary64::zero()),
    ensures
        same(a.sum(z), a),
{
    binary64::lemma_one_value();
    binary64::lemma_zero_code(z);
    binary64::lemma_zero_code(a);
    if a.is_finite() && a.value() != 0 {
        rounding::lemma_rounded_exact(1, a.code());
        assert(a.sum(z) == a);
    }
}

/// Zero terms can be left out of a sum.
proof fn lemma_total_remove(terms: Seq<Binary64>, k: int)
    requires
        0 <= k < terms.len(),
        terms[k].equals(Binary64::zero()),
    ensures
        same(average::total(terms), average::total(terms.remove(k))),
    decreases terms.len(),
{
    let rest = terms.remove(k);
    if k == terms.len() - 1 {
        assert(rest =~= terms.drop_last());
        lemma_sum_zero(average::total(terms.drop_last()), terms.last());
    } else {
        lemma_total_remove(terms.drop_last(), k);
        assert(rest.drop_last() =~= terms.drop_last().remove(k));
        assert(rest.last() == terms.last());
        lemma_same_sum(
            average::total(terms.drop_last()), average::total(rest.drop_last()), terms.last());
    }
}

/// Zero times a finite number is a zero.
proof fn lemma_product_zero(a: Binary64, b: Binary64)
    requires
        a.is_finite(),
        b.is_finite(),
        a.value() == 0 || b.value() == 0,
    ensures
        a.product(b).equals(Binary64::zero()),
{
    let one = pow2(ONE_EXPONENT as nat);
    let m = a.magnitude() * b.magnitude();
    binary64::lemma_one_value();
    binary64::lemma_zero_code(a);
    binary64::lemma_zero_code(b);
    lemma_pow2_pos(ONE_EXPONENT as nat);
    assert(m == 0) by (nonlinear_arith)
        requires
            m == a.magnitude() * b.magnitude(),
            a.magnitude() == 0 || b.magnitude() == 0,
    ;
    lemma_rounded_zero(one);
    binary64::lemma_zero_code(a.product(b));
}

pub(crate) proof fn lemma_rounded_zero(den: nat)
    requires
        den > 0,
    ensures
        rounding::rounded(0, den) == 0,
{
    assert(den * rounding::magnitude(0) == 0) by (nonlinear_arith)
        requires rounding::magnitude(0) == 0;
    rounding::lemma_rounded_exact(den, 0);
}

/// A zero divided by what is neither zero nor not a number is a zero.
proof fn lemma_quotient_zero(a: Binary64, t: Binary64)
    requires
        a.equals(Binary64::zero()),
        !t.is_nan(),
        t.value() != 0,
    ensures
        a.quotient(t).equals(Binary64::zero()),
{
    binary64::lemma_one_value();
    binary64::lemma_zero_code(a);
    binary64::lemma_zero_code(t);
    assert(0 * pow2(ONE_EXPONENT as nat) == 0) by (nonlinear_arith);
    if t.is_finite() {
        lemma_rounded_zero(t.magnitude());
    }
    binary64::lemma_zero_code(a.quotient(t));
}

/// A clipped score lies between zero and one, and clipping again changes
/// nothing.
pub proof fn law_clipping_is_idempotent(v: Binary64)
    ensures
        v.clipped().in_unit_interval(),
        v.clipped().clipped() == v.clipped(),
{
    binary64::lemma_one_value();
}

/// A score that already lies between zero and one is left as it is.
pub proof fn law_clipping_keeps_unit_interval(v: Binary64)
    requires
        v.in_unit_interval(),
    ensures
        v.clipped() == v,
{
}

/// Clipping never turns the order of two scores around.
pub proof fn law_clipping_keeps_order(a: Binary64, b: Binary64)
    requires
        !a.is_nan(),
        !b.is_nan(),
        a.value() <= b.value(),
    ensures
        a.clipped().value() <= b.clipped().value(),
{
    binary64::lemma_one_value();
}

/// The overall score lies between zero and one, whatever the scores and
/// weights are.
pub proof fn law_overall_in_unit_interval(values: Seq<Binary64>, weights: Seq<Binary64>)
    ensures
        average::overall(values, weights).in_unit_interval(),
{
    binary64::lemma_one_value();
}

/// Weights that sum to zero, or to what is not a number, give an overall score
/// of zero.
pub proof fn law_no_total_weight_scores_zero(values: Seq<Binary64>, weights: Seq<Binary64>)
    requires
        average::total(weights).equals(Binary64::zero()) || average::total(weights).is_nan(),
    ensures
        average::overall(values, weights) == Binary64::zero(),
{
}

/// A rubric of weight zero is excluded from the overall score: leaving it out
/// changes nothing.
pub proof fn law_zero_weight_is_excluded(
    values: Seq<Binary64>,
    weights: Seq<Binary64>,
    k: int,
)
    requires
        values.len() == weights.len(),
        0 <= k < values.len(),
        values[k].in_unit_interval(),
        weights[k].equals(Binary64::zero()),
    ensures
        average::overall(values, weights).equals(
            average::overall(values.remove(k), weights.remove(k)),
        ),
{
    let terms = average::weighted(values, weights);
    let v2 = values.remove(k);
    let w2 = weights.remove(k);
    binary64::lemma_one_value();
    rounding::lemma_magnitude_order(Binary64::one().code(), values[k].code());
    binary64::lemma_zero_code(values[k]);
    binary64::lemma_zero_code(weights[k]);
    lemma_product_zero(values[k], weights[k]);
    lemma_total_remove(terms, k);
    lemma_total_remove(weights, k);
    assert(average::weighted(v2, w2) =~= terms.remove(k));
    let t = average::total(weights);
    let t2 = average::total(w2);
    let a = average::total(terms);
    let a2 = average::total(terms.remove(k));
    if !t.is_nan() && t.value() != 0 {
        lemma_equal_bits(t, t2);
        if !a.is_nan() {
            if a.value() != 0 {
                lemma_equal_bits(a, a2);
            } else {
                lemma_quotient_zero(a, t);
                lemma_quotient_zero(a2, t);
            }
        }
    }
}

/// A sum is finite only if each of its terms is.
pub(crate) proof fn lemma_total_finite(terms: Seq<Binary64>, i: int)
    requires
        average::total(terms).is_finite(),
        0 <= i < terms.len(),
    ensures
        terms[i].is_finite(),
    decreases terms.len(),
{
    if i < terms.len() - 1 {
        lemma_total_finite(terms.drop_last(), i);
        assert(terms.drop_last()[i] == terms[i]);
    }
}

/// One times a finite number is that number.
proof fn lemma_product_one(w: Binary64)
    requires
        w.is_finite(),
    ensures
        Binary64::one().product(w) == w,
        w.product(Binary64::one()) == w,
{
    binary64::lemma_one_value();
    let one = pow2(ONE_EXPONENT as nat);
    lemma_pow2_pos(ONE_EXPONENT as nat);
    rounding::lemma_rounded_exact(one, w.code());
    assert(w.magnitude() * one == one * w.magnitude()) by (nonlinear_arith);
}

/// A finite number other than zero goes into itself once.
proof fn lemma_quotient_self(t: Binary64)
    requires
        t.is_finite(),
        t.value() != 0,
    ensures
        t.quotient(t) == Binary64::one(),
{
    binary64::lemma_one_value();
    rounding::lemma_rounded_exact(t.magnitude(), Binary64::one().code());
}

/// An output that every rubric scores one gets an overall score of one,
/// whatever the weights, as long as they have a finite sum other than zero.
pub proof fn law_all_ones_score_one(values: Seq<Binary64>, weights: Seq<Binary64>)
    requires
        values.len() == weights.len(),
        forall|i: int| 0 <= i < values.len() ==> (#[trigger] values[i]).equals(Binary64::one()),
        average::total(weights).is_finite(),
        !average::total(weights).equals(Binary64::zero()),
    ensures
        average::overall(values, weights) == Binary64::one(),
{
    binary64::lemma_one_value();
    lemma_pow2_pos(ONE_EXPONENT as nat);
    let terms = average::weighted(values, weights);
    assert forall|i: int| 0 <= i < weights.len() implies terms[i] == weights[i] by {
        assert(values[i].equals(Binary64::one()));
        lemma_equal_bits(values[i], Binary64::one());
        lemma_total_finite(weights, i);
        lemma_product_one(weights[i]);
    }
    assert(terms =~= weights);
    lemma_quotient_self(average::total(weights));
}

/// A sum of zeros is a zero.
pub(crate) proof fn lemma_total_zeros(terms: Seq<Binary64>)
    requires
        forall|i: int|
            0 <= i < terms.len() ==> same(#[trigger] terms[i], Binary64::zero())
                || terms[i].is_nan(),
    ensures
        average::total(terms).is_nan() || average::total(terms).equals(Binary64::zero()),
    decreases terms.len(),
{
    binary64::lemma_one_value();
    if terms.len() > 0 {
        let front = terms.drop_last();
        assert forall|i: int| 0 <= i < front.len() implies same(#[trigger] front[i], Binary64::zero())
            || front[i].is_nan() by {
            assert(front[i] == terms[i]);
        }
        lemma_total_zeros(front);
        binary64::lemma_zero_code(average::total(front));
        binary64::lemma_zero_code(terms.last());
        if !average::total(front).is_nan() && !terms.last().is_nan() {
            lemma_sum_zero(average::total(front), terms.last());
        }
    }
}

/// An output that every rubric scores zero gets an overall score of zero.
pub proof fn law_all_zeros_score_zero(values: Seq<Binary64>, weights: Seq<Binary64>)
    requires
        values.len() == weights.len(),
        forall|i: int| 0 <= i < values.len() ==> (#[trigger] values[i]).equals(Binary64::zero()),
    ensures
        average::overall(values, weights).equals(Binary64::zero()),
{
    binary64::lemma_one_value();
    let terms = average::weighted(values, weights);
    assert forall|i: int| 0 <= i < terms.len() implies same(#[trigger] terms[i], Binary64::zero())
        || terms[i].is_nan() by {
        assert(values[i].equals(Binary64::zero()));
        binary64::lemma_zero_code(values[i]);
        if weights[i].is_finite() {
            lemma_product_zero(values[i], weights[i]);
        }
    }
    lemma_total_zeros(terms);
    let t = average::total(weights);
    let a = average::total(terms);
    if !t.is_nan() && t.value() != 0 && !a.is_nan() {
        lemma_quotient_zero(a, t);
    }
}

/// Whether this is finite and not below zero.
pub open spec fn amount(a: Binary64) -> bool {
    a.is_finite() && a.value() >= 0
}

pub(crate) proof fn lemma_amount(a: Binary64)
    requires
        amount(a),
    ensures
        a.value() == a.magnitude(),
{
    binary64::lemma_zero_code(a);
    binary64::lemma_one_value();
}

/// What has the code of a nearest magnitude, and a minus sign only where that
/// is zero, is a number not below zero.
proof fn lemma_from_rounded(r: Binary64, num: nat, den: nat)
    requires
        den > 0,
        r.code() == rounding::rounded(num, den),
        r.negative() ==> r.code() == 0,
    ensures
        !r.is_nan(),
        r.value() == r.magnitude(),
{
    rounding::lemma_rounded(num, den);
    binary64::lemma_zero_code(r);
}

/// Sums of amounts keep their order.
proof fn lemma_sum_ordered(a: Binary64, b: Binary64, c: Binary64, d: Binary64)
    requires
        amount(a),
        amount(b),
        amount(c),
        amount(d),
        a.value() <= c.value(),
        b.value() <= d.value(),
    ensures
        !a.sum(b).is_nan(),
        !c.sum(d).is_nan(),
        0 <= a.sum(b).value() <= c.sum(d).value(),
{
    lemma_sum_rounded(a, b);
    lemma_sum_rounded(c, d);
    let m = a.magnitude() + b.magnitude();
    let n = c.magnitude() + d.magnitude();
    lemma_amount(a);
    lemma_amount(b);
    lemma_amount(c);
    lemma_amount(d);
    rounding::lemma_rounded_monotone(m, 1, n, 1);
    rounding::lemma_magnitude_order(c.sum(d).code(), a.sum(b).code());
}

pub(crate) proof fn lemma_sum_rounded(a: Binary64, b: Binary64)
    requires
        amount(a),
        amount(b),
    ensures
        a.sum(b).code() == rounding::rounded(a.magnitude() + b.magnitude(), 1),
        !a.sum(b).is_nan(),
        a.sum(b).value() == a.sum(b).magnitude(),
{
    let m = a.magnitude() + b.magnitude();
    lemma_amount(a);
    lemma_amount(b);
    rounding::lemma_rounded(m, 1);
    lemma_rounded_zero(1);
    lemma_from_rounded(a.sum(b), m, 1);
}

pub(crate) proof fn lemma_product_rounded(v: Binary64, w: Binary64)
    requires
        amount(v),
        amount(w),
    ensures
        v.product(w).code() == rounding::rounded(
            v.magnitude() * w.magnitude(), pow2(ONE_EXPONENT as nat)),
        !v.product(w).is_nan(),
        v.product(w).value() == v.product(w).magnitude(),
{
    let one = pow2(ONE_EXPONENT as nat);
    let m = v.magnitude() * w.magnitude();
    lemma_pow2_pos(ONE_EXPONENT as nat);
    binary64::lemma_zero_code(v);
    binary64::lemma_zero_code(w);
    rounding::lemma_rounded(m, one);
    if v.value() == 0 || w.value() == 0 {
        lemma_product_zero(v, w);
        binary64::lemma_one_value();
        binary64::lemma_zero_code(v.product(w));
    }
    lemma_from_rounded(v.product(w), m, one);
}

/// Weighting keeps the order of scores, and never exceeds the weight.
pub(crate) proof fn lemma_product_ordered(v1: Binary64, v2: Binary64, w: Binary64)
    requires
        v1.in_unit_interval(),
        v2.in_unit_interval(),
        v1.value() <= v2.value(),
        amount(w),
    ensures
        amount(v1.product(w)),
        amount(v2.product(w)),
        v1.product(w).value() <= v2.product(w).value() <= w.value(),
{
    let one = pow2(ONE_EXPONENT as nat);
    binary64::lemma_one_value();
    lemma_pow2_pos(ONE_EXPONENT as nat);
    lemma_unit_finite(v1);
    lemma_unit_finite(v2);
    lemma_amount(v1);
    lemma_amount(v2);
    lemma_amount(w);
    lemma_product_rounded(v1, w);
    lemma_product_rounded(v2, w);
    let (m1, m2, m) = (v1.magnitude(), v2.magnitude(), w.magnitude());
    assert((m1 * m) * one <= (m2 * m) * one) by (nonlinear_arith)
        requires m1 <= m2;
    assert((m2 * m) * one <= (one * m) * one) by (nonlinear_arith)
        requires m2 <= one;
    rounding::lemma_rounded_monotone(m1 * m, one, m2 * m, one);
    rounding::lemma_rounded_monotone(m2 * m, one, one * m, one);
    rounding::lemma_rounded_exact(one, w.code());
    rounding::lemma_magnitude_order(v2.product(w).code(), v1.product(w).code());
    rounding::lemma_magnitude_order(w.code(), v2.product(w).code());
}

pub(crate) proof fn lemma_unit_finite(v: Binary64)
    requires
        v.in_unit_interval(),
    ensures
        amount(v),
{
    binary64::lemma_one_value();
    rounding::lemma_magnitude_order(Binary64::one().code(), v.code());
    binary64::lemma_zero_code(v);
}

/// Weighted sums keep the order of the scores, and never exceed the sum of the
/// weights.
pub(crate) proof fn lemma_totals_ordered(v1: Seq<Binary64>, v2: Seq<Binary64>, ws: Seq<Binary64>)
    requires
        v1.len() == ws.len(),
        v2.len() == ws.len(),
        forall|i: int| 0 <= i < ws.len() ==> (#[trigger] v1[i]).in_unit_interval(),
        forall|i: int| 0 <= i < ws.len() ==> (#[trigger] v2[i]).in_unit_interval(),
        forall|i: int| 0 <= i < ws.len() ==> (#[trigger] v1[i]).value() <= v2[i].value(),
        forall|i: int| 0 <= i < ws.len() ==> !(#[trigger] ws[i]).below(Binary64::zero()),
        average::total(ws).is_finite(),
    ensures
        amount(average::total(average::weighted(v1, ws))),
        amount(average::total(average::weighted(v2, ws))),
        amount(average::total(ws)),
        average::total(average::weighted(v1, ws)).value()
            <= average::total(average::weighted(v2, ws)).value()
            <= average::total(ws).value(),
    decreases ws.len(),
{
    binary64::lemma_one_value();
    if ws.len() > 0 {
        let (f1, f2, fw) = (v1.drop_last(), v2.drop_last(), ws.drop_last());
        let n = ws.len() - 1;
        let t1 = average::weighted(v1, ws);
        let t2 = average::weighted(v2, ws);
        assert forall|i: int| 0 <= i < fw.len() implies (#[trigger] f1[i]).value() <= f2[i].value() by {
            assert(f1[i] == v1[i]);
        }
        lemma_totals_ordered(f1, f2, fw);
        assert(t1.drop_last() =~= average::weighted(f1, fw));
        assert(t2.drop_last() =~= average::weighted(f2, fw));
        assert(v1[n].in_unit_interval() && v2[n].in_unit_interval());
        assert(!ws[n].below(Binary64::zero()));
        lemma_product_ordered(v1[n], v2[n], ws[n]);
        let (a1, a2, a) = (
            average::total(t1.drop_last()), average::total(t2.drop_last()), average::total(fw));
        lemma_sum_ordered(a1, t1.last(), a2, t2.last());
        lemma_sum_ordered(a2, t2.last(), a, ws.last());
        lemma_finite_below(a1.sum(t1.last()), a.sum(ws.last()));
        lemma_finite_below(a2.sum(t2.last()), a.sum(ws.last()));
    }
}

pub(crate) proof fn lemma_finite_below(a: Binary64, b: Binary64)
    requires
        !a.is_nan(),
        0 <= a.value() <= b.value(),
        b.is_finite(),
    ensures
        a.is_finite(),
{
    binary64::lemma_zero_code(a);
    binary64::lemma_zero_code(b);
    binary64::lemma_one_value();
    rounding::lemma_magnitude_order(b.code(), a.code());
}

/// Weights without a finite sum other than zero score nothing.
pub(crate) proof fn lemma_no_finite_total(values: Seq<Binary64>, ws: Seq<Binary64>)
    requires
        !average::total(ws).is_finite(),
    ensures
        average::overall(values, ws).value() == 0,
{
    binary64::lemma_one_value();
    let a = average::total(average::weighted(values, ws));
    let t = average::total(ws);
    binary64::lemma_zero_code(a.quotient(t));
}

/// Rubrics rank: an output that scores at least as much on every rubric gets an
/// overall score that is at least as high.
pub proof fn law_overall_ranks(v1: Seq<Binary64>, v2: Seq<Binary64>, weights: Seq<Binary64>)
    requires
        v1.len() == weights.len(),
        v2.len() == weights.len(),
        forall|i: int| 0 <= i < weights.len() ==> (#[trigger] v1[i]).in_unit_interval(),
        forall|i: int| 0 <= i < weights.len() ==> (#[trigger] v2[i]).in_unit_interval(),
        forall|i: int| 0 <= i < weights.len() ==> (#[trigger] v1[i]).value() <= v2[i].value(),
        forall|i: int| 0 <= i < weights.len() ==> !(#[trigger] weights[i]).below(Binary64::zero()),
    ensures
        average::overall(v1, weights).value() <= average::overall(v2, weights).value(),
{
    let t = average::total(weights);
    let a = average::total(average::weighted(v1, weights));
    let b = average::total(average::weighted(v2, weights));
    binary64::lemma_one_value();
    if !t.is_finite() {
        lemma_no_finite_total(v1, weights);
        lemma_no_finite_total(v2, weights);
    } else if t.value() != 0 {
        lemma_totals_ordered(v1, v2, weights);
        lemma_quotient_ordered(a, b, t);
        law_clipping_keeps_order(a.quotient(t), b.quotient(t));
    }
}

pub(crate) proof fn lemma_quotient_rounded(a: Binary64, t: Binary64)
    requires
        amount(a),
        amount(t),
        t.value() != 0,
    ensures
        a.quotient(t).code() == rounding::rounded(
            a.magnitude() * pow2(ONE_EXPONENT as nat), t.magnitude()),
        !a.quotient(t).is_nan(),
        a.quotient(t).value() == a.quotient(t).magnitude(),
{
    let num = a.magnitude() * pow2(ONE_EXPONENT as nat);
    lemma_amount(t);
    binary64::lemma_zero_code(a);
    binary64::lemma_zero_code(t);
    rounding::lemma_rounded(num, t.magnitude());
    if a.value() == 0 {
        binary64::lemma_one_value();
        lemma_quotient_zero(a, t);
        binary64::lemma_zero_code(a.quotient(t));
    }
    lemma_from_rounded(a.quotient(t), num, t.magnitude());
}

/// Dividing by the same amount keeps order.
proof fn lemma_quotient_ordered(a: Binary64, b: Binary64, t: Binary64)
    requires
        amount(a),
        amount(b),
        amount(t),
        t.value() != 0,
        a.value() <= b.value(),
    ensures
        !a.quotient(t).is_nan(),
        !b.quotient(t).is_nan(),
        a.quotient(t).value() <= b.quotient(t).value(),
{
    let one = pow2(ONE_EXPONENT as nat);
    lemma_quotient_rounded(a, t);
    lemma_quotient_rounded(b, t);
    lemma_amount(a);
    lemma_amount(b);
    lemma_amount(t);
    let (m, n, d) = (a.magnitude(), b.magnitude(), t.magnitude());
    assert((m * one) * d <= (n * one) * d) by (nonlinear_arith)
        requires m <= n;
    rounding::lemma_rounded_monotone(m * one, d, n * one, d);
    rounding::lemma_magnitude_order(b.quotient(t).code(), a.quotient(t).code());
}

/// Above the smallest normal magnitude, doubling is one exponent step.
proof fn lemma_magnitude_doubles(code: nat)
    requires
        code >= EXPONENT_STEP,
    ensures
        rounding::magnitude(code + EXPONENT_STEP as nat) == 2 * rounding::magnitude(code),
{
    let (t, q) = rounding::lemma_code_splits(code);
    let step = EXPONENT_STEP as nat;
    assert((t + 1) * step + q == code + step) by (nonlinear_arith)
        requires code == t * step + q;
    rounding::lemma_magnitude_of_significand(t + 1, q);
    lemma_pow2_unfold(t + 1);
    assert(q * pow2(t + 1) == 2 * (q * pow2(t))) by (nonlinear_arith)
        requires pow2(t + 1) == 2 * pow2(t);
}

/// Whether rounding `num / den` units is free of underflow: the rational is a
/// whole number of units, or not below the smallest normal magnitude.
pub open spec fn no_underflow(num: nat, den: nat) -> bool {
    num % den == 0 || num >= EXPONENT_STEP * den
}

/// Whether weighting the score `v` with `w` is free of underflow: the exact
/// product is a number of the format, or not below the smallest normal one.
pub open spec fn weighs_without_underflow(v: Binary64, w: Binary64) -> bool {
    no_underflow(v.magnitude() * w.magnitude(), pow2(ONE_EXPONENT as nat))
}

/// Rounding twice a rational that is not below the smallest normal magnitude
/// gives twice the magnitude, short of infinity.
proof fn lemma_rounded_doubles_normal(num: nat, den: nat)
    requires
        den > 0,
        num >= EXPONENT_STEP * den,
        rounding::rounded(2 * num, den) < INFINITY_CODE,
    ensures
        rounding::magnitude(rounding::rounded(2 * num, den))
            == 2 * rounding::magnitude(rounding::rounded(num, den)),
{
    let code = rounding::rounded(num, den);
    let step = EXPONENT_STEP as nat;
    lemma2_to64();
    rounding::lemma_magnitude_of_significand(0, step);
    rounding::lemma_rounded_exact(den, step);
    assert((den * step) * den <= num * den) by (nonlinear_arith)
        requires num >= step * den;
    rounding::lemma_rounded_monotone(den * step, den, num, den);
    rounding::lemma_rounded(num, den);
    rounding::lemma_rounded(2 * num, den);
    lemma_magnitude_doubles(code);
    lemma_magnitude_doubles(code + 1);
    let high = rounding::magnitude(code) + rounding::magnitude(code + 1);
    assert(den * (2 * high) == 2 * (den * high)) by (nonlinear_arith);
    assert((code + 1 + step) as nat == (code + step + 1) as nat);
    if code == step {
        let below = rounding::magnitude((code + step - 1) as nat);
        let at = rounding::magnitude(code + step);
        rounding::lemma_magnitude_next((code + step - 1) as nat);
        assert(den * (below + at) < 4 * num) by (nonlinear_arith)
            requires den > 0, num >= step * den, at == 2 * step, below < at;
        assert(rounding::nearest(2 * num, den, code + step));
    } else {
        lemma_magnitude_doubles((code - 1) as nat);
        assert((code - 1 + step) as nat == (code + step - 1) as nat);
        let low = rounding::magnitude((code - 1) as nat) + rounding::magnitude(code);
        assert(den * (2 * low) == 2 * (den * low)) by (nonlinear_arith);
        if code + step < INFINITY_CODE {
            assert(rounding::nearest(2 * num, den, code + step));
        } else {
            let top = INFINITY_CODE as nat;
            let c = (top - step) as nat;
            lemma_magnitude_doubles(c);
            lemma_magnitude_doubles((c - 1) as nat);
            assert((c - 1 + step) as nat == (top - 1) as nat);
            rounding::lemma_magnitude_order(code, c);
            rounding::lemma_magnitude_order((code - 1) as nat, (c - 1) as nat);
            let l = rounding::magnitude((c - 1) as nat) + rounding::magnitude(c);
            assert(den * (2 * l) == 2 * (den * l)) by (nonlinear_arith);
            if code != c {
                assert(den * l < den * low) by (nonlinear_arith)
                    requires l < low, den > 0;
            }
            assert(rounding::nearest(2 * num, den, top));
        }
    }
}

/// Without underflow, rounding twice a rational gives twice the magnitude,
/// short of infinity.
proof fn lemma_rounded_doubles(num: nat, den: nat)
    requires
        den > 0,
        no_underflow(num, den),
        rounding::rounded(2 * num, den) < INFINITY_CODE,
    ensures
        no_underflow(2 * num, den),
        rounding::magnitude(rounding::rounded(2 * num, den))
            == 2 * rounding::magnitude(rounding::rounded(num, den)),
{
    let step = EXPONENT_STEP as nat;
    assert(step * den >= 0) by (nonlinear_arith);
    if num >= step * den {
        lemma_rounded_doubles_normal(num, den);
    } else {
        let m = num / den;
        lemma2_to64();
        vstd::arithmetic::div_mod::lemma_fundamental_div_mod(num as int, den as int);
        assert(m < step) by (nonlinear_arith)
            requires num == den * m, num < step * den, den > 0;
        assert(2 * num == den * (2 * m)) by (nonlinear_arith)
            requires num == den * m;
        vstd::arithmetic::div_mod::lemma_mod_multiples_basic((2 * m) as int, den as int);
        assert((2 * m) * den == den * (2 * m)) by (nonlinear_arith);
        rounding::lemma_magnitude_of_significand(0, m);
        rounding::lemma_magnitude_of_significand(0, 2 * m);
        rounding::lemma_rounded_exact(den, m);
        rounding::lemma_rounded_exact(den, 2 * m);
    }
}

/// Without underflow, rounding a rational times a power of two gives the
/// magnitude times that power, short of infinity.
proof fn lemma_rounded_scales(num: nat, den: nat, k: nat)
    requires
        den > 0,
        no_underflow(num, den),
        rounding::rounded(num * pow2(k), den) < INFINITY_CODE,
    ensures
        rounding::magnitude(rounding::rounded(num * pow2(k), den))
            == rounding::magnitude(rounding::rounded(num, den)) * pow2(k),
    decreases k,
{
    if k == 0 {
        lemma2_to64();
        assert(num * 1 == num);
    } else {
        let p = pow2((k - 1) as nat);
        let h = 2 * num;
        lemma_pow2_unfold(k);
        lemma_pow2_pos((k - 1) as nat);
        assert(num * pow2(k) == h * p) by (nonlinear_arith)
            requires pow2(k) == 2 * p, h == 2 * num;
        assert(h * den <= (h * p) * den) by (nonlinear_arith)
            requires p > 0;
        rounding::lemma_rounded_monotone(h, den, h * p, den);
        lemma_rounded_doubles(num, den);
        lemma_rounded_scales(h, den, (k - 1) as nat);
        let m = rounding::magnitude(rounding::rounded(num, den));
        assert((2 * m) * p == m * pow2(k)) by (nonlinear_arith)
            requires pow2(k) == 2 * p;
    }
}

/// A weight is an amount if it is not negative and its scaled weight is finite.
proof fn lemma_scaled_weight(w1: Binary64, w2: Binary64, p: nat)
    requires
        p > 0,
        w2.is_finite(),
        w2.value() == w1.value() * p,
        !w1.below(Binary64::zero()),
    ensures
        amount(w1),
        amount(w2),
{
    binary64::lemma_one_value();
    let (m1, m2) = (w1.magnitude(), w2.magnitude());
    assert(m1 <= m2) by (nonlinear_arith)
        requires
            p > 0,
            w2.value() == w1.value() * p,
            w1.value() == m1 || w1.value() == -m1,
            w2.value() == m2 || w2.value() == -m2,
            m1 >= 0,
            m2 >= 0,
    ;
    rounding::lemma_magnitude_order(w2.code(), w1.code());
    assert(w1.value() >= 0 ==> w1.value() * p >= 0) by (nonlinear_arith)
        requires p > 0;
}

/// Scaled weights scale the weighted sum and the sum of the weights.
proof fn lemma_totals_scale(vs: Seq<Binary64>, w1: Seq<Binary64>, w2: Seq<Binary64>, k: nat)
    requires
        vs.len() == w1.len(),
        vs.len() == w2.len(),
        forall|i: int| 0 <= i < vs.len() ==> (#[trigger] vs[i]).in_unit_interval(),
        forall|i: int| 0 <= i < vs.len() ==> !(#[trigger] w1[i]).below(Binary64::zero()),
        forall|i: int|
            0 <= i < vs.len() ==> (#[trigger] w2[i]).value() == w1[i].value() * pow2(k),
        forall|i: int|
            0 <= i < vs.len() ==> weighs_without_underflow(vs[i], #[trigger] w1[i]),
        average::total(w2).is_finite(),
    ensures
        amount(average::total(w1)),
        amount(average::total(w2)),
        amount(average::total(average::weighted(vs, w1))),
        amount(average::total(average::weighted(vs, w2))),
        average::total(w2).value() == average::total(w1).value() * pow2(k),
        average::total(average::weighted(vs, w2)).value()
            == average::total(average::weighted(vs, w1)).value() * pow2(k),
    decreases vs.len(),
{
    binary64::lemma_one_value();
    lemma_pow2_pos(k);
    if vs.len() == 0 {
        assert(0 * pow2(k) == 0) by (nonlinear_arith);
    } else {
        let n = vs.len() - 1;
        let (fv, f1, f2) = (vs.drop_last(), w1.drop_last(), w2.drop_last());
        let t1 = average::weighted(vs, w1);
        let t2 = average::weighted(vs, w2);
        assert forall|i: int| 0 <= i < fv.len() implies (#[trigger] f2[i]).value()
            == f1[i].value() * pow2(k) by {
            assert(f2[i] == w2[i]);
        }
        assert forall|i: int| 0 <= i < fv.len() implies weighs_without_underflow(
            fv[i],
            #[trigger] f1[i],
        ) by {
            assert(f1[i] == w1[i]);
        }
        lemma_totals_scale(fv, f1, f2, k);
        assert(t1.drop_last() =~= average::weighted(fv, f1));
        assert(t2.drop_last() =~= average::weighted(fv, f2));
        assert(vs[n].in_unit_interval());
        assert(!w1[n].below(Binary64::zero()));
        assert(w2[n].value() == w1[n].value() * pow2(k));
        assert(weighs_without_underflow(vs[n], w1[n]));
        assert forall|i: int| 0 <= i < vs.len() implies !(#[trigger] w2[i]).below(
            Binary64::zero(),
        ) by {
            assert(!w1[i].below(Binary64::zero()));
            lemma_total_finite(w2, i);
            lemma_scaled_weight(w1[i], w2[i], pow2(k));
        }
        lemma_totals_ordered(vs, vs, w2);
        lemma_total_finite(w2, n);
        lemma_scaled_weight(w1[n], w2[n], pow2(k));
        lemma_product_scales(vs[n], w1[n], w2[n], k);
        lemma_sum_scales(average::total(f1), w1[n], average::total(f2), w2[n], k);
        lemma_sum_scales(
            average::total(t1.drop_last()), t1[n], average::total(t2.drop_last()), t2[n], k);
    }
}

proof fn lemma_product_scales(v: Binary64, w1: Binary64, w2: Binary64, k: nat)
    requires
        v.in_unit_interval(),
        amount(w1),
        amount(w2),
        w2.value() == w1.value() * pow2(k),
        weighs_without_underflow(v, w1),
    ensures
        amount(v.product(w1)),
        amount(v.product(w2)),
        v.product(w2).value() == v.product(w1).value() * pow2(k),
{
    let one = pow2(ONE_EXPONENT as nat);
    lemma_pow2_pos(ONE_EXPONENT as nat);
    lemma_unit_finite(v);
    lemma_product_ordered(v, v, w1);
    lemma_product_ordered(v, v, w2);
    lemma_amount(w1);
    lemma_amount(w2);
    lemma_product_rounded(v, w1);
    lemma_product_rounded(v, w2);
    let (m, m1, m2) = (v.magnitude(), w1.magnitude(), w2.magnitude());
    assert(m * m2 == (m * m1) * pow2(k)) by (nonlinear_arith)
        requires m2 == m1 * pow2(k);
    lemma_rounded_scales(m * m1, one, k);
}

proof fn lemma_sum_scales(a1: Binary64, b1: Binary64, a2: Binary64, b2: Binary64, k: nat)
    requires
        amount(a1),
        amount(b1),
        amount(a2),
        amount(b2),
        a2.value() == a1.value() * pow2(k),
        b2.value() == b1.value() * pow2(k),
        a2.sum(b2).is_finite(),
    ensures
        amount(a1.sum(b1)),
        amount(a2.sum(b2)),
        a2.sum(b2).value() == a1.sum(b1).value() * pow2(k),
{
    let p = pow2(k);
    lemma_pow2_pos(k);
    lemma_amount(a1);
    lemma_amount(b1);
    lemma_amount(a2);
    lemma_amount(b2);
    lemma_sum_rounded(a1, b1);
    lemma_sum_rounded(a2, b2);
    let (m, n) = (a1.magnitude(), b1.magnitude());
    assert((m + n) * p == m * p + n * p) by (nonlinear_arith);
    lemma_rounded_scales(m + n, 1, k);
    let r = a1.sum(b1).value();
    assert(r <= r * p) by (nonlinear_arith)
        requires r >= 0, p > 0;
    lemma_finite_below(a1.sum(b1), a2.sum(b2));
}

/// Whether `scaled` is the weight `w` times two to the power of `k`. Infinite
/// weights stay infinite, and what is not a number stays none.
pub open spec fn scaled_weight(w: Binary64, scaled: Binary64, k: nat) -> bool {
    ||| w.is_nan() && scaled.is_nan()
    ||| w.is_infinite() && scaled.is_infinite()
    ||| scaled.value() == w.value() * pow2(k)
}

/// Scaled weights have a finite sum only if the weights have one.
proof fn lemma_scaled_total_finite(w1: Seq<Binary64>, w2: Seq<Binary64>, k: nat)
    requires
        w1.len() == w2.len(),
        forall|i: int| 0 <= i < w1.len() ==> !(#[trigger] w1[i]).below(Binary64::zero()),
        forall|i: int| 0 <= i < w1.len() ==> scaled_weight(w1[i], #[trigger] w2[i], k),
        average::total(w2).is_finite(),
    ensures
        average::total(w1).is_finite(),
        forall|i: int| 0 <= i < w1.len() ==> (#[trigger] w2[i]).value() == w1[i].value() * pow2(k),
{
    let zeros = Seq::new(w1.len(), |i: int| Binary64::zero());
    let one = pow2(ONE_EXPONENT as nat);
    binary64::lemma_one_value();
    lemma_pow2_pos(ONE_EXPONENT as nat);
    assert forall|i: int| 0 <= i < w1.len() implies (#[trigger] w2[i]).value() == w1[i].value()
        * pow2(k) by {
        lemma_total_finite(w2, i);
        assert(scaled_weight(w1[i], w2[i], k));
    }
    assert forall|i: int| 0 <= i < w1.len() implies weighs_without_underflow(
        zeros[i],
        #[trigger] w1[i],
    ) by {
        assert(0 * w1[i].magnitude() == 0) by (nonlinear_arith);
        assert(0nat % one == 0) by {
            vstd::arithmetic::div_mod::lemma_small_mod(0, one);
        }
    }
    lemma_totals_scale(zeros, w1, w2, k);
}

/// Weights are normalized: multiplying every weight by the same power of two
/// leaves the overall score as it is, as long as no score underflows when it is
/// weighted and a finite sum of the weights does not overflow. Read from
/// `scaled` to `weights`, the same holds of dividing.
pub proof fn law_scaling_weights_changes_nothing(
    values: Seq<Binary64>,
    weights: Seq<Binary64>,
    scaled: Seq<Binary64>,
    k: nat,
)
    requires
        values.len() == weights.len(),
        values.len() == scaled.len(),
        forall|i: int| 0 <= i < values.len() ==> (#[trigger] values[i]).in_unit_interval(),
        forall|i: int| 0 <= i < values.len() ==> !(#[trigger] weights[i]).below(Binary64::zero()),
        forall|i: int|
            0 <= i < values.len() ==> scaled_weight(weights[i], #[trigger] scaled[i], k),
        average::total(weights).is_finite() ==> average::total(scaled).is_finite(),
        average::total(weights).is_finite() ==> forall|i: int|
            0 <= i < values.len() ==> weighs_without_underflow(values[i], #[trigger] weights[i]),
    ensures
        average::overall(values, scaled).equals(average::overall(values, weights)),
{
    let p = pow2(k);
    binary64::lemma_one_value();
    lemma_pow2_pos(k);
    if !average::total(scaled).is_finite() {
        lemma_no_finite_total(values, weights);
        lemma_no_finite_total(values, scaled);
        law_overall_in_unit_interval(values, weights);
        law_overall_in_unit_interval(values, scaled);
    } else {
        lemma_scaled_total_finite(weights, scaled, k);
        lemma_totals_scale(values, weights, scaled, k);
        let (t1, t2) = (average::total(weights), average::total(scaled));
        let a1 = average::total(average::weighted(values, weights));
        let a2 = average::total(average::weighted(values, scaled));
        assert(t2.value() == 0 <==> t1.value() == 0) by (nonlinear_arith)
            requires t2.value() == t1.value() * p, p > 0;
        if t1.value() != 0 {
            lemma_amount(t1);
            lemma_amount(t2);
            lemma_amount(a1);
            lemma_amount(a2);
            lemma_quotient_rounded(a1, t1);
            lemma_quotient_rounded(a2, t2);
            let one = pow2(ONE_EXPONENT as nat);
            let (m, d) = (a1.magnitude(), t1.magnitude());
            assert((m * p) * one == (m * one) * p) by (nonlinear_arith);
            assert(((m * one) * p) * d == (m * one) * (d * p)) by (nonlinear_arith);
            assert(d * p > 0) by (nonlinear_arith)
                requires d > 0, p > 0;
            rounding::lemma_rounded_monotone((m * one) * p, d * p, m * one, d);
            rounding::lemma_rounded_monotone(m * one, d, (m * one) * p, d * p);
            assert(a1.quotient(t1).value() == a2.quotient(t2).value());
        }
    }
}

/// A uniform set of one rubric scores what that rubric scores.
pub proof fn law_single_rubric_is_the_overall(value: Binary64)
    requires
        value.in_unit_interval(),
    ensures
        average::overall(seq![value], seq![Binary64::one()]).equals(value),
{
    let one = Binary64::one();
    let zero = Binary64::negative_zero();
    binary64::lemma_one_value();
    lemma_pow2_pos(ONE_EXPONENT as nat);
    lemma_unit_finite(value);
    let terms = average::weighted(seq![value], seq![one]);
    lemma_product_one(value);
    assert(terms =~= seq![value]);
    assert(seq![value].drop_last() =~= seq![]);
    assert(seq![one].drop_last() =~= seq![]);
    reveal_with_fuel(average::total, 2);
    lemma_same_sum_zero_left(one);
    lemma_same_sum_zero_left(value);
    lemma_equal_bits(zero.sum(one), one);
    let a = zero.sum(value);
    if value.value() == 0 {
        lemma_quotient_zero(a, one);
    } else {
        lemma_equal_bits(a, value);
        let m = value.magnitude();
        let p = pow2(ONE_EXPONENT as nat);
        lemma_amount(value);
        lemma_quotient_rounded(value, one);
        lemma_amount(one);
        assert(m * p == p * m) by (nonlinear_arith);
        rounding::lemma_rounded_exact(p, value.code());
    }
}

/// Adding a finite number to negative zero changes nothing.
proof fn lemma_same_sum_zero_left(a: Binary64)
    requires
        amount(a),
    ensures
        Binary64::negative_zero().sum(a).equals(a),
{
    let zero = Binary64::negative_zero();
    binary64::lemma_one_value();
    lemma_amount(a);
    lemma_amount(zero);
    lemma_sum_rounded(zero, a);
    rounding::lemma_rounded_exact(1, a.code());
}

} // verus!
