//! How near the overall score is to the exact weighted average.

use crate::average;
use crate::average_laws;
use crate::binary64;
use crate::binary64::Binary64;
use crate::rounding;
use crate::rounding::{EXPONENT_STEP, INFINITY_CODE, ONE_EXPONENT};
use vstd::arithmetic::power2::*;
use vstd::math::abs;
use vstd::prelude::*;

verus! {

/// The exact sum of the values of the weights.
spec fn weight_sum(ws: Seq<Binary64>) -> int
    decreases ws.len(),
{
    if ws.len() == 0 { 0 } else { weight_sum(ws.drop_last()) + ws.last().value() }
}

/// The exact sum of the weighted values.
spec fn product_sum(vs: Seq<Binary64>, ws: Seq<Binary64>) -> int
    decreases ws.len(),
{
    if ws.len() == 0 {
        0
    } else {
        product_sum(vs.drop_last(), ws.drop_last()) + vs.last().value() * ws.last().value()
    }
}

/// The exact sum of the rounded products.
spec fn term_sum(vs: Seq<Binary64>, ws: Seq<Binary64>) -> int
    decreases ws.len(),
{
    if ws.len() == 0 {
        0
    } else {
        term_sum(vs.drop_last(), ws.drop_last()) + vs.last().product(ws.last()).value()
    }
}

/// Whether these are scores in the unit interval with finite weights that are
/// not negative.
spec fn usable(vs: Seq<Binary64>, ws: Seq<Binary64>) -> bool {
    &&& vs.len() == ws.len()
    &&& forall|i: int| 0 <= i < ws.len() ==> (#[trigger] vs[i]).in_unit_interval()
    &&& forall|i: int| 0 <= i < ws.len() ==> average_laws::amount(#[trigger] ws[i])
}

proof fn lemma_usable_front(vs: Seq<Binary64>, ws: Seq<Binary64>)
    requires
        usable(vs, ws),
        ws.len() > 0,
    ensures
        usable(vs.drop_last(), ws.drop_last()),
        vs.last().in_unit_interval(),
        average_laws::amount(ws.last()),
{
    let (fv, fw) = (vs.drop_last(), ws.drop_last());
    assert forall|i: int| 0 <= i < fw.len() implies (#[trigger] fv[i]).in_unit_interval() by {
        assert(fv[i] == vs[i]);
    }
    assert forall|i: int| 0 <= i < fw.len() implies average_laws::amount(#[trigger] fw[i]) by {
        assert(fw[i] == ws[i]);
    }
    assert(vs[vs.len() - 1].in_unit_interval());
    assert(average_laws::amount(ws[ws.len() - 1]));
}

/// The step down from a code is no larger than the step up from it.
proof fn lemma_step_down(code: nat, t: nat, q: nat)
    requires
        code > 0,
        code == t * EXPONENT_STEP + q,
        q < 2 * EXPONENT_STEP,
    ensures
        rounding::magnitude((code - 1) as nat) + pow2(t) >= rounding::magnitude(code),
{
    let step = EXPONENT_STEP as nat;
    let (t1, q1) = rounding::lemma_code_splits((code - 1) as nat);
    assert(t1 <= t) by (nonlinear_arith)
        requires
            code == t * step + q,
            code - 1 == t1 * step + q1,
            q < 2 * step,
            t1 == 0 || q1 >= step,
            step > 0,
    ;
    if t1 < t {
        lemma_pow2_strictly_increases(t1, t);
    }
    assert((q1 + 1) * pow2(t1) == q1 * pow2(t1) + pow2(t1)) by (nonlinear_arith);
}

/// Rounding changes a rational by at most half of its last place.
proof fn lemma_rounding_error(num: nat, den: nat)
    requires
        den > 0,
        rounding::rounded(num, den) < INFINITY_CODE,
    ensures
        ({
            let m = rounding::magnitude(rounding::rounded(num, den));
            let gap = abs(m * den - num);
            &&& gap * 0x20_0000_0000_0000 <= m * den + 0x10_0000_0000_0000 * den
            &&& den == 1 ==> gap * 0x20_0000_0000_0000 <= m
        }),
{
    let r = rounding::rounded(num, den);
    let m = rounding::magnitude(r);
    rounding::lemma_rounded(num, den);
    let (t, q) = rounding::lemma_code_splits(r);
    let p = pow2(t);
    lemma2_to64();
    lemma_pow2_pos(t);
    assert((q + 1) * p == q * p + p) by (nonlinear_arith);
    let up = m + rounding::magnitude(r + 1);
    assert(den * up == 2 * (m * den) + den * p) by (nonlinear_arith)
        requires up == 2 * m + p;
    if r > 0 {
        lemma_step_down(r, t, q);
        let low = rounding::magnitude((r - 1) as nat) + m;
        assert(den * low >= 2 * (m * den) - den * p) by (nonlinear_arith)
            requires low + p >= 2 * m, den > 0;
    } else {
        assert(m * den == 0) by (nonlinear_arith)
            requires m == 0;
        assert(den * p >= 0) by (nonlinear_arith);
    }
    let gap = abs(m * den - num);
    assert(2 * gap <= den * p);
    if t == 0 {
        assert(den * p == den) by (nonlinear_arith)
            requires p == 1;
        assert(m * den >= 0) by (nonlinear_arith);
    } else {
        assert(0x10_0000_0000_0000 * (den * p) <= m * den) by (nonlinear_arith)
            requires m == q * p, q >= 0x10_0000_0000_0000, den > 0, p > 0;
        assert(den * 0x10_0000_0000_0000 >= 0);
    }
    if den == 1 {
        assert(m * den == m) by (nonlinear_arith)
            requires den == 1;
        assert(den * p == p) by (nonlinear_arith)
            requires den == 1;
    }
}

/// A sum is no smaller than its first term, and near the exact one.
proof fn lemma_sum_error(a: Binary64, b: Binary64)
    requires
        average_laws::amount(a),
        average_laws::amount(b),
        a.sum(b).is_finite(),
    ensures
        a.value() <= a.sum(b).value(),
        abs(a.sum(b).value() - (a.value() + b.value())) * 0x20_0000_0000_0000 <= a.sum(b).value(),
{
    average_laws::lemma_amount(a);
    average_laws::lemma_amount(b);
    average_laws::lemma_sum_rounded(a, b);
    let num = a.magnitude() + b.magnitude();
    lemma_rounding_error(num, 1);
    rounding::lemma_rounded_monotone(a.magnitude(), 1, num, 1);
    rounding::lemma_rounded_exact(1, a.code());
    rounding::lemma_magnitude_order(a.sum(b).code(), a.code());
}

/// How far the sum of the weights, the weighted sum and its terms are from the
/// exact ones.
proof fn lemma_totals_error(vs: Seq<Binary64>, ws: Seq<Binary64>)
    requires
        usable(vs, ws),
        average::total(ws).is_finite(),
    ensures
        ({
            let n = ws.len();
            let one = pow2(1074);
            let t = average::total(ws).value();
            let a = average::total(average::weighted(vs, ws)).value();
            let w = weight_sum(ws);
            let p = term_sum(vs, ws);
            let s = product_sum(vs, ws);
            &&& average_laws::amount(average::total(ws))
            &&& average_laws::amount(average::total(average::weighted(vs, ws)))
            &&& a <= t
            &&& abs(t - w) * 0x20_0000_0000_0000 <= n * t
            &&& abs(a - p) * 0x20_0000_0000_0000 <= n * a
            &&& abs(p * one - s) * 0x20_0000_0000_0000 <= p * one + n * (0x10_0000_0000_0000 * one)
            &&& 0 <= p <= w
            &&& 0 <= s <= one * w
        }),
    decreases ws.len(),
{
    let one = pow2(1074);
    binary64::lemma_one_value();
    lemma_pow2_pos(1074);
    assert(one * 0 == 0) by (nonlinear_arith);
    assert(0 * one == 0) by (nonlinear_arith);
    if ws.len() > 0 {
        let n = ws.len();
        let (fv, fw) = (vs.drop_last(), ws.drop_last());
        let (v, w) = (vs.last(), ws.last());
        lemma_usable_front(vs, ws);
        lemma_totals_error(fv, fw);
        assert forall|i: int| 0 <= i < ws.len() implies !(#[trigger] ws[i]).below(
            Binary64::zero(),
        ) by {
            assert(average_laws::amount(ws[i]));
        }
        average_laws::lemma_totals_ordered(vs, vs, ws);
        let terms = average::weighted(vs, ws);
        assert(terms.drop_last() =~= average::weighted(fv, fw));
        let p = v.product(w);
        average_laws::lemma_product_ordered(v, v, w);
        average_laws::lemma_unit_finite(v);
        average_laws::lemma_amount(v);
        average_laws::lemma_amount(w);
        average_laws::lemma_product_rounded(v, w);
        lemma_rounding_error(v.magnitude() * w.magnitude(), one);
        lemma_sum_error(average::total(fw), w);
        lemma_sum_error(average::total(terms.drop_last()), p);
        let (t0, t1) = (average::total(fw).value(), average::total(ws).value());
        let (a0, a1) = (
            average::total(terms.drop_last()).value(), average::total(terms).value());
        assert((n - 1) * t0 + t1 <= n * t1) by (nonlinear_arith)
            requires t0 <= t1, n >= 1;
        assert((n - 1) * a0 + a1 <= n * a1) by (nonlinear_arith)
            requires a0 <= a1, n >= 1;
        let (p0, p1) = (term_sum(fv, fw), p.value());
        let h = 0x10_0000_0000_0000 * one;
        assert((p0 + p1) * one == p0 * one + p1 * one) by (nonlinear_arith);
        assert((n - 1) * h + h == n * h) by (nonlinear_arith);
        let x = v.value() * w.value();
        let (w0, w1) = (weight_sum(fw), w.value());
        assert(one * (w0 + w1) == one * w0 + one * w1) by (nonlinear_arith);
        assert(0 <= x <= one * w1) by (nonlinear_arith)
            requires x == v.value() * w1, 0 <= v.value() <= one, w1 >= 0;
    }
}

/// Weights with a small enough exact sum have a finite sum.
proof fn lemma_total_does_not_overflow(vs: Seq<Binary64>, ws: Seq<Binary64>)
    requires
        usable(vs, ws),
        ws.len() <= 0x10_0000_0000_0000,
        weight_sum(ws) <= pow2(2096),
    ensures
        average::total(ws).is_finite(),
    decreases ws.len(),
{
    binary64::lemma_one_value();
    if ws.len() > 0 {
        let (fv, fw) = (vs.drop_last(), ws.drop_last());
        let w = ws.last();
        lemma_usable_front(vs, ws);
        lemma_total_does_not_overflow(fv, fw);
        lemma_totals_error(fv, fw);
        let t = average::total(fw);
        let n = fw.len();
        lemma_at_most_twice(t.value(), weight_sum(fw), n);
        average_laws::lemma_amount(t);
        average_laws::lemma_amount(w);
        average_laws::lemma_sum_rounded(t, w);
        let num = t.magnitude() + w.magnitude();
        lemma_pow2_unfold(2097);
        lemma2_to64();
        lemma2_to64_rest();
        lemma_pow2_adds(52, 2045);
        rounding::lemma_magnitude_of_significand(2045, EXPONENT_STEP as nat);
        let top = (2046 * EXPONENT_STEP) as nat;
        assert(rounding::magnitude(top) == pow2(2097));
        rounding::lemma_rounded_exact(1, top);
        rounding::lemma_rounded_monotone(num, 1, pow2(2097), 1);
    }
}

/// A sum that is near enough to the exact one is at most twice it.
proof fn lemma_at_most_twice(t: int, w: int, n: nat)
    requires
        t >= 0,
        n <= 0x10_0000_0000_0000,
        abs(t - w) * 0x20_0000_0000_0000 <= n * t,
    ensures
        t <= 2 * w,
{
    assert(n * t <= 0x10_0000_0000_0000 * t) by (nonlinear_arith)
        requires n <= 0x10_0000_0000_0000, t >= 0;
}

/// The errors of the sums and of the division put together.
proof fn lemma_errors_add_up(
    n: int, one: int, q: int, t: int, w: int, a: int, p: int, s: int)
    requires
        n >= 0,
        one >= 0x10_0000_0000_0000,
        0 <= q <= one,
        0 <= t,
        0 <= a <= t,
        0 <= p <= w,
        0 <= s <= one * w,
        abs(t - w) * 0x20_0000_0000_0000 <= n * t,
        abs(a - p) * 0x20_0000_0000_0000 <= n * a,
        abs(p * one - s) * 0x20_0000_0000_0000 <= p * one + n * (0x10_0000_0000_0000 * one),
        abs(q * t - a * one) * 0x20_0000_0000_0000 <= q * t + 0x10_0000_0000_0000 * t,
    ensures
        abs(q * w - s) * 0x20_0000_0000_0000 <= (4 * n + 5) * (one * w) + n * (0x10_0000_0000_0000
            * one),
{
    let u: int = 0x20_0000_0000_0000;
    let h: int = 0x10_0000_0000_0000;
    let b = one * w;
    assert(b >= 0) by (nonlinear_arith)
        requires b == one * w, one >= 0, w >= 0;
    assert(0 <= q * w <= b) by (nonlinear_arith)
        requires 0 <= q <= one, w >= 0, b == one * w;
    assert(n * (h * one) >= 0) by (nonlinear_arith)
        requires n >= 0, h >= 0, one >= 0;
    if 4 * n + 5 >= u {
        assert(u * b <= (4 * n + 5) * b) by (nonlinear_arith)
            requires 4 * n + 5 >= u, b >= 0;
    } else {
        lemma_at_most_twice(t, w, n as nat);
        let d = abs(t - w) as int;
        assert(abs(q * w - q * t) == q * d) by (nonlinear_arith)
            requires d == abs(t - w), q >= 0;
        assert(q * d * u <= one * (n * t)) by (nonlinear_arith)
            requires d * u <= n * t, 0 <= q <= one, d >= 0, u >= 0;
        assert(one * (n * t) <= (2 * n) * b) by (nonlinear_arith)
            requires 0 <= t <= 2 * w, b == one * w, n >= 0, one >= 0;
        assert(q * t + h * t <= 4 * b) by (nonlinear_arith)
            requires 0 <= q <= one, 0 <= h <= one, 0 <= t <= 2 * w, b == one * w;
        let e = abs(a - p) as int;
        assert(abs(a * one - p * one) == e * one) by (nonlinear_arith)
            requires e == abs(a - p), one >= 0;
        assert((e * one) * u <= (n * a) * one) by (nonlinear_arith)
            requires e * u <= n * a, one >= 0;
        assert((n * a) * one <= (2 * n) * b) by (nonlinear_arith)
            requires 0 <= a <= t, t <= 2 * w, b == one * w, n >= 0, one >= 0;
        assert(p * one <= b) by (nonlinear_arith)
            requires 0 <= p <= w, b == one * w, one >= 0;
        let g = abs(q * t - a * one) as int;
        let k = abs(p * one - s) as int;
        assert(abs(q * w - s) <= q * d + g + e * one + k);
        assert((q * d + g + e * one + k) * u == q * d * u + g * u + (e * one) * u + k * u)
            by (nonlinear_arith);
        assert((4 * n + 5) * b == (2 * n) * b + 4 * b + (2 * n) * b + b) by (nonlinear_arith);
    }
}

/// The overall score is near the exact weighted average.
proof fn lemma_overall_error(vs: Seq<Binary64>, ws: Seq<Binary64>)
    requires
        usable(vs, ws),
        average::total(ws).is_finite(),
    ensures
        ({
            let n = ws.len();
            let one = pow2(1074);
            let q = average::overall(vs, ws).value();
            let w = weight_sum(ws);
            let s = product_sum(vs, ws);
            abs(q * w - s) * 0x20_0000_0000_0000 <= (4 * n + 5) * (one * w) + n * (
                0x10_0000_0000_0000 * one)
        }),
{
    let one = pow2(1074);
    let t = average::total(ws);
    let a = average::total(average::weighted(vs, ws));
    binary64::lemma_one_value();
    lemma2_to64();
    lemma2_to64_rest();
    lemma_pow2_strictly_increases(52, 1074);
    lemma_totals_error(vs, ws);
    let w = weight_sum(ws);
    let p = term_sum(vs, ws);
    let s = product_sum(vs, ws);
    if t.value() == 0 {
        assert(ws.len() * t.value() == 0) by (nonlinear_arith)
            requires t.value() == 0;
        assert(w == 0);
        assert(one * w == 0) by (nonlinear_arith)
            requires w == 0;
        assert(average::overall(vs, ws).value() * w == 0) by (nonlinear_arith)
            requires w == 0;
        let n = ws.len();
        assert((4 * n + 5) * (one * w) + n * (0x10_0000_0000_0000 * one) >= 0) by (nonlinear_arith)
            requires one * w == 0, one >= 0, n >= 0;
    } else {
        average_laws::lemma_amount(t);
        average_laws::lemma_amount(a);
        average_laws::lemma_quotient_rounded(a, t);
        let q = a.quotient(t);
        let (m, d) = (a.magnitude(), t.magnitude());
        rounding::lemma_rounded_exact(d, Binary64::one().code());
        assert((m * one) * d <= (d * one) * d) by (nonlinear_arith)
            requires m <= d;
        rounding::lemma_rounded_monotone(m * one, d, d * one, d);
        rounding::lemma_magnitude_order(Binary64::one().code(), q.code());
        assert(average::overall(vs, ws) == q);
        lemma_rounding_error(m * one, d);
        lemma_errors_add_up(
            ws.len() as int, one as int, q.value(), t.value(), w, a.value(), p, s);
    }
}

/// Folding whole numbers from the left adds them up.
proof fn lemma_fold_weights(ws: Seq<Binary64>, xs: Seq<int>, f: spec_fn(int, int) -> int)
    requires
        xs.len() == ws.len(),
        forall|i: int| 0 <= i < ws.len() ==> #[trigger] xs[i] == ws[i].value(),
        forall|a: int, x: int| #[trigger] f(a, x) == a + x,
    ensures
        xs.fold_left(0int, f) == weight_sum(ws),
    decreases ws.len(),
{
    if ws.len() > 0 {
        lemma_fold_weights(ws.drop_last(), xs.drop_last(), f);
        assert(xs.last() == xs[xs.len() - 1]);
    }
}

proof fn lemma_fold_products(
    vs: Seq<Binary64>, ws: Seq<Binary64>, xs: Seq<int>, f: spec_fn(int, int) -> int)
    requires
        vs.len() == ws.len(),
        xs.len() == ws.len(),
        forall|i: int| 0 <= i < ws.len() ==> #[trigger] xs[i] == vs[i].value() * ws[i].value(),
        forall|a: int, x: int| #[trigger] f(a, x) == a + x,
    ensures
        xs.fold_left(0int, f) == product_sum(vs, ws),
    decreases ws.len(),
{
    if ws.len() > 0 {
        let (fv, fw, fx) = (vs.drop_last(), ws.drop_last(), xs.drop_last());
        assert forall|i: int| 0 <= i < fw.len() implies #[trigger] fx[i] == fv[i].value()
            * fw[i].value() by {
            assert(fx[i] == xs[i]);
        }
        lemma_fold_products(fv, fw, fx, f);
        assert(xs.last() == xs[xs.len() - 1]);
    }
}

/// Weights that are not negative are finite where their exact sum is small.
proof fn lemma_weight_bounded(ws: Seq<Binary64>, i: int)
    requires
        0 <= i < ws.len(),
        forall|j: int| 0 <= j < ws.len() ==> !(#[trigger] ws[j]).is_nan() && ws[j].value() >= 0,
    ensures
        0 <= ws[i].value() <= weight_sum(ws),
    decreases ws.len(),
{
    let fw = ws.drop_last();
    assert forall|j: int| 0 <= j < fw.len() implies !(#[trigger] fw[j]).is_nan() && fw[j].value()
        >= 0 by {
        assert(fw[j] == ws[j]);
    }
    assert(ws[ws.len() - 1].value() >= 0);
    if i < ws.len() - 1 {
        lemma_weight_bounded(fw, i);
        assert(fw[i] == ws[i]);
    } else if fw.len() > 0 {
        lemma_weight_bounded(fw, 0);
    } else {
        assert(weight_sum(fw) == 0);
    }
}

proof fn lemma_usable(vs: Seq<Binary64>, ws: Seq<Binary64>)
    requires
        vs.len() == ws.len(),
        forall|i: int|
            0 <= i < ws.len() ==> !(#[trigger] vs[i]).is_nan() && 0 <= vs[i].value() <= pow2(1074),
        forall|i: int| 0 <= i < ws.len() ==> !(#[trigger] ws[i]).is_nan() && ws[i].value() >= 0,
        weight_sum(ws) <= pow2(2096),
    ensures
        usable(vs, ws),
{
    binary64::lemma_one_value();
    lemma2_to64();
    lemma2_to64_rest();
    lemma_pow2_adds(52, 2046);
    lemma_pow2_strictly_increases(2096, 2098);
    rounding::lemma_magnitude_of_significand(2046, EXPONENT_STEP as nat);
    assert forall|i: int| 0 <= i < ws.len() implies average_laws::amount(#[trigger] ws[i]) by {
        lemma_weight_bounded(ws, i);
        binary64::lemma_zero_code(ws[i]);
        rounding::lemma_magnitude_order(ws[i].code(), INFINITY_CODE as nat);
        assert(!ws[i].is_infinite());
    }
}

/// The overall score is the weighted average: times the exact sum of the
/// weights, it is the exact sum of each value times its weight, but for the
/// rounding of each step. With `n` rubrics the overall score is off by at most
/// `4 n + 5` times two to the power of minus 53; the last summand is half a
/// unit for each product, which matters only for the tiniest weights.
pub proof fn law_overall_is_the_weighted_average(values: Seq<Binary64>, weights: Seq<Binary64>)
    requires
        values.len() == weights.len(),
        weights.len() <= 0x10_0000_0000_0000,
        forall|i: int|
            0 <= i < values.len() ==> !(#[trigger] values[i]).is_nan() && 0 <= values[i].value()
                <= pow2(1074),
        forall|i: int|
            0 <= i < weights.len() ==> !(#[trigger] weights[i]).is_nan() && weights[i].value() >= 0,
        Seq::new(weights.len(), |i: int| weights[i].value()).fold_left(
            0int,
            |a: int, x: int| a + x,
        ) <= pow2(2096),
    ensures
        ({
            let n = weights.len();
            let one = pow2(1074);
            let w = Seq::new(weights.len(), |i: int| weights[i].value()).fold_left(
                0int,
                |a: int, x: int| a + x,
            );
            let s = Seq::new(
                weights.len(),
                |i: int| values[i].value() * weights[i].value(),
            ).fold_left(0int, |a: int, x: int| a + x);
            abs(average::overall(values, weights).value() * w - s) * 0x20_0000_0000_0000 <= (4 * n
                + 5) * (one * w) + n * (0x10_0000_0000_0000 * one)
        }),
{
    let f = |a: int, x: int| a + x;
    lemma_fold_weights(weights, Seq::new(weights.len(), |i: int| weights[i].value()), f);
    lemma_fold_products(
        values,
        weights,
        Seq::new(weights.len(), |i: int| values[i].value() * weights[i].value()),
        f,
    );
    lemma_usable(values, weights);
    lemma_total_does_not_overflow(values, weights);
    lemma_overall_error(values, weights);
}

/// Changing one value changes the exact weighted sum by its share.
proof fn lemma_product_sum_changes(
    v1: Seq<Binary64>, v2: Seq<Binary64>, ws: Seq<Binary64>, k: int)
    requires
        v1.len() == ws.len(),
        v2.len() == ws.len(),
        0 <= k < ws.len(),
        forall|i: int| 0 <= i < ws.len() && i != k ==> #[trigger] v1[i] == v2[i],
    ensures
        product_sum(v2, ws) - product_sum(v1, ws) == (v2[k].value() - v1[k].value())
            * ws[k].value(),
    decreases ws.len(),
{
    let (f1, f2, fw) = (v1.drop_last(), v2.drop_last(), ws.drop_last());
    if k == ws.len() - 1 {
        assert(f1 =~= f2) by {
            assert forall|i: int| 0 <= i < f1.len() implies f1[i] == f2[i] by {
                assert(v1[i] == v2[i]);
            }
        }
        let (a, b, w) = (v1[k].value(), v2[k].value(), ws[k].value());
        assert(b * w - a * w == (b - a) * w) by (nonlinear_arith);
    } else {
        assert forall|i: int| 0 <= i < fw.len() && i != k implies #[trigger] f1[i] == f2[i] by {
            assert(v1[i] == v2[i]);
        }
        lemma_product_sum_changes(f1, f2, fw, k);
        assert(v1[ws.len() - 1] == v2[ws.len() - 1]);
    }
}

/// Changing one score moves the overall score by that rubric's share of the
/// weight, but for rounding: a clear rise of a score with a clear share is a
/// rise of the overall score.
pub proof fn law_overall_moves_by_the_share(
    v1: Seq<Binary64>,
    v2: Seq<Binary64>,
    weights: Seq<Binary64>,
    k: int,
)
    requires
        v1.len() == weights.len(),
        v2.len() == weights.len(),
        0 <= k < weights.len(),
        weights.len() <= 0x10_0000_0000_0000,
        forall|i: int| 0 <= i < weights.len() && i != k ==> #[trigger] v1[i] == v2[i],
        forall|i: int|
            0 <= i < weights.len() ==> !(#[trigger] v1[i]).is_nan() && 0 <= v1[i].value() <= pow2(
                1074,
            ),
        !v2[k].is_nan() && 0 <= v2[k].value() <= pow2(1074),
        forall|i: int|
            0 <= i < weights.len() ==> !(#[trigger] weights[i]).is_nan() && weights[i].value() >= 0,
        Seq::new(weights.len(), |i: int| weights[i].value()).fold_left(
            0int,
            |a: int, x: int| a + x,
        ) <= pow2(2096),
    ensures
        ({
            let n = weights.len();
            let one = pow2(1074);
            let w = Seq::new(weights.len(), |i: int| weights[i].value()).fold_left(
                0int,
                |a: int, x: int| a + x,
            );
            let rise = average::overall(v2, weights).value() - average::overall(v1, weights).value();
            let share = (v2[k].value() - v1[k].value()) * weights[k].value();
            abs(rise * w - share) * 0x20_0000_0000_0000 <= 2 * ((4 * n + 5) * (one * w) + n * (
                0x10_0000_0000_0000 * one))
        }),
{
    let f = |a: int, x: int| a + x;
    lemma_fold_weights(weights, Seq::new(weights.len(), |i: int| weights[i].value()), f);
    assert forall|i: int| 0 <= i < weights.len() implies !(#[trigger] v2[i]).is_nan() && 0
        <= v2[i].value() <= pow2(1074) by {
        if i != k {
            assert(v1[i] == v2[i]);
        }
    }
    lemma_usable(v1, weights);
    lemma_usable(v2, weights);
    lemma_total_does_not_overflow(v1, weights);
    lemma_overall_error(v1, weights);
    lemma_overall_error(v2, weights);
    lemma_product_sum_changes(v1, v2, weights, k);
    let w = weight_sum(weights);
    let (q1, q2) = (
        average::overall(v1, weights).value(), average::overall(v2, weights).value());
    assert((q2 - q1) * w == q2 * w - q1 * w) by (nonlinear_arith);
}

/// A weight that is infinite or not a number makes the overall score zero, and
/// so do weights that are all zero.
pub proof fn law_unusable_weights_score_zero(values: Seq<Binary64>, weights: Seq<Binary64>)
    requires
        values.len() == weights.len(),
        (exists|i: int|
            0 <= i < weights.len() && ((#[trigger] weights[i]).is_nan()
                || weights[i].is_infinite())) || (forall|i: int|
            0 <= i < weights.len() ==> !(#[trigger] weights[i]).is_nan() && weights[i].value()
                == 0),
    ensures
        average::overall(values, weights).value() == 0,
        !average::overall(values, weights).is_nan(),
{
    binary64::lemma_one_value();
    if exists|i: int|
        0 <= i < weights.len() && ((#[trigger] weights[i]).is_nan() || weights[i].is_infinite()) {
        let i = choose|i: int|
            0 <= i < weights.len() && ((#[trigger] weights[i]).is_nan()
                || weights[i].is_infinite());
        if average::total(weights).is_finite() {
            average_laws::lemma_total_finite(weights, i);
        }
        average_laws::lemma_no_finite_total(values, weights);
    } else {
        assert forall|i: int| 0 <= i < weights.len() implies average_laws::same(
            #[trigger] weights[i],
            Binary64::zero(),
        ) || weights[i].is_nan() by {
            assert(!weights[i].is_nan() && weights[i].value() == 0);
        }
        average_laws::lemma_total_zeros(weights);
    }
}

/// Folding numbers with rounded addition gives their sum.
pub(crate) proof fn lemma_fold_total(terms: Seq<Binary64>, f: spec_fn(Binary64, Binary64) -> Binary64)
    requires
        forall|a: Binary64, x: Binary64| #[trigger] f(a, x) == a.sum(x),
    ensures
        terms.fold_left(Binary64::negative_zero(), f) == average::total(terms),
    decreases terms.len(),
{
    if terms.len() > 0 {
        lemma_fold_total(terms.drop_last(), f);
    }
}

/// To the last bit, the overall score is what rounded additions from the left,
/// rounded products and one rounded division give; zero where the weights add
/// up to zero or to what is not a number.
pub proof fn law_overall_step_by_step(values: Seq<Binary64>, weights: Seq<Binary64>)
    requires
        values.len() == weights.len(),
    ensures
        ({
            let t = weights.fold_left(
                Binary64::negative_zero(),
                |a: Binary64, x: Binary64| a.sum(x),
            );
            let a = Seq::new(
                weights.len(),
                |i: int| values[i].product(weights[i]),
            ).fold_left(Binary64::negative_zero(), |a: Binary64, x: Binary64| a.sum(x));
            average::overall(values, weights) == if t.is_nan() || t.value() == 0 {
                Binary64::zero()
            } else {
                a.quotient(t).clipped()
            }
        }),
{
    let f = |a: Binary64, x: Binary64| a.sum(x);
    let terms = Seq::new(weights.len(), |i: int| values[i].product(weights[i]));
    binary64::lemma_one_value();
    lemma_fold_total(weights, f);
    lemma_fold_total(terms, f);
    assert(terms =~= average::weighted(values, weights));
}

} // verus!
