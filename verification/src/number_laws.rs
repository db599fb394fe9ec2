//! What the numbers are, and what holds of sums, products and quotients of
//! them: each is the number nearest to the exact result.

use crate::binary64;
use crate::binary64::Binary64;
use crate::rounding;
use crate::rounding::{EXPONENT_STEP, INFINITY_CODE, ONE_EXPONENT};
use vstd::arithmetic::power2::*;
use vstd::math::abs;
use vstd::prelude::*;
use vstd::std_specs::cmp::PartialEqSpec;

verus! {

/// The encoding is that of IEEE 754: a sign bit, eleven bits of exponent and
/// fifty-two of fraction. Values are counted in units of two to the power of
/// minus 1074.
pub proof fn law_value_of_bits(x: Binary64, sign: int, exponent: int, fraction: int)
    requires
        0 <= sign <= 1,
        0 <= exponent <= 2047,
        0 <= fraction < 0x10_0000_0000_0000,
        x.bits == sign * 0x8000_0000_0000_0000 + exponent * 0x10_0000_0000_0000 + fraction,
    ensures
        x.negative() <==> sign == 1,
        x.is_finite() <==> exponent < 2047,
        x.is_infinite() <==> exponent == 2047 && fraction == 0,
        x.is_nan() <==> exponent == 2047 && fraction > 0,
        exponent == 0 ==> x.value() == (if sign == 1 { -fraction } else { fraction }),
        0 < exponent < 2047 ==> x.value() == (if sign == 1 { -1int } else { 1 }) * (
            0x10_0000_0000_0000 + fraction) * pow2((exponent - 1) as nat),
        x.is_infinite() ==> abs(x.value()) == pow2(2098),
{
    let step = EXPONENT_STEP as int;
    let code = exponent * step + fraction;
    assert(x.code() == code);
    vstd::arithmetic::div_mod::lemma_fundamental_div_mod_converse(code, step, exponent, fraction);
    let m = x.magnitude();
    if exponent > 0 {
        let p = pow2((exponent - 1) as nat) as int;
        assert(sign == 1 ==> -1int * (step + fraction) * p == -((step + fraction) * p))
            by (nonlinear_arith);
        assert(1int * (step + fraction) * p == (step + fraction) * p) by (nonlinear_arith);
    }
    if x.is_infinite() {
        lemma2_to64();
        lemma2_to64_rest();
        lemma_pow2_adds(52, 2046);
    }
}

/// One is two to the power of 1074 units; both zeros are none, and differ in
/// their sign.
pub proof fn law_value_of_constants()
    ensures
        Binary64::one().value() == pow2(1074),
        Binary64::zero().value() == 0,
        Binary64::negative_zero().value() == 0,
        !Binary64::zero().negative(),
        Binary64::negative_zero().negative(),
        !Binary64::one().is_nan(),
        !Binary64::zero().is_nan(),
        !Binary64::negative_zero().is_nan(),
        Binary64::nan().is_nan(),
{
    binary64::lemma_one_value();
}

/// Numbers compare as their values do, and what is not a number compares with
/// nothing.
pub proof fn law_comparison_is_by_value(a: Binary64, b: Binary64)
    ensures
        a.below(b) <==> !a.is_nan() && !b.is_nan() && a.value() < b.value(),
        a.equals(b) <==> !a.is_nan() && !b.is_nan() && a.value() == b.value(),
        a.in_unit_interval() <==> !a.is_nan() && 0 <= a.value() <= pow2(1074),
{
    binary64::lemma_one_value();
}

/// What `==` says of two numbers is whether their values are equal; it never
/// holds of what is not a number.
pub proof fn law_equality_is_by_value(a: Binary64, b: Binary64)
    ensures
        a.eq_spec(&b) <==> !a.is_nan() && !b.is_nan() && a.value() == b.value(),
{
}

/// No magnitude is nearer to a rational than the one that it is rounded to, and
/// of two that are equally near the even one is taken.
proof fn lemma_rounded_is_nearest(num: nat, den: nat, c: nat)
    requires
        den > 0,
        rounding::rounded(num, den) < INFINITY_CODE,
        c < INFINITY_CODE,
    ensures
        ({
            let r = rounding::rounded(num, den);
            let gap = abs(rounding::magnitude(r) * den - num);
            let other = abs(rounding::magnitude(c) * den - num);
            gap <= other && (gap == other && c != r ==> r % 2 == 0)
        }),
{
    let r = rounding::rounded(num, den);
    rounding::lemma_rounded(num, den);
    let mr = rounding::magnitude(r);
    let mc = rounding::magnitude(c);
    rounding::lemma_magnitude_order(r, c);
    rounding::lemma_magnitude_order(c, r);
    assert(mr * den == den * mr) by (nonlinear_arith);
    assert(mc * den == den * mc) by (nonlinear_arith);
    if c > r {
        let up = rounding::magnitude(r + 1);
        rounding::lemma_magnitude_order(c, r + 1);
        assert(den * (mr + up) <= den * mr + den * mc) by (nonlinear_arith)
            requires up <= mc, den > 0;
        assert(den * mr < den * mc) by (nonlinear_arith)
            requires mr < mc, den > 0;
    } else if c < r {
        let down = rounding::magnitude((r - 1) as nat);
        rounding::lemma_magnitude_order((r - 1) as nat, c);
        assert(den * (down + mr) >= den * mr + den * mc) by (nonlinear_arith)
            requires down >= mc, den > 0;
        assert(den * mr > den * mc) by (nonlinear_arith)
            requires mr > mc, den > 0;
    }
}

/// Infinity is what rationals beyond the last midpoint are rounded to.
proof fn lemma_rounded_overflow(num: nat, den: nat)
    requires
        den > 0,
    ensures
        rounding::rounded(num, den) <= INFINITY_CODE,
        rounding::rounded(num, den) == INFINITY_CODE
            <==> 2 * num >= den * (0x3f_ffff_ffff_ffff * pow2(2045)),
{
    let top = INFINITY_CODE as nat;
    let last = pow2(2045);
    rounding::lemma_rounded(num, den);
    lemma_pow2_unfold(2046);
    rounding::lemma_magnitude_of_significand(2045, 0x1f_ffff_ffff_ffff);
    rounding::lemma_magnitude_of_significand(2046, EXPONENT_STEP as nat);
    assert(rounding::magnitude((top - 1) as nat) == 0x1f_ffff_ffff_ffff * last);
    assert(rounding::magnitude(top) == 0x20_0000_0000_0000 * last);
    let mid = rounding::magnitude((top - 1) as nat) + rounding::magnitude(top);
    assert(mid == 0x3f_ffff_ffff_ffff * last);
    let r = rounding::rounded(num, den);
    if r < top {
        rounding::lemma_magnitude_order((top - 1) as nat, r);
        rounding::lemma_magnitude_order(top, (r + 1) as nat);
        let up = rounding::magnitude(r) + rounding::magnitude(r + 1);
        assert(den * up <= den * mid) by (nonlinear_arith)
            requires up <= mid, den > 0;
        if 2 * num == den * mid {
            assert(up == mid) by (nonlinear_arith)
                requires den > 0, up <= mid, den * mid <= den * up;
            assert(r == top - 1);
        }
    }
}

/// The sum of two finite numbers is infinite exactly beyond the last midpoint,
/// and otherwise no finite number is nearer to the exact sum; of two that are
/// equally near, the one whose encoding is even is taken.
pub proof fn law_sum_is_nearest(a: Binary64, b: Binary64, c: Binary64)
    requires
        a.is_finite(),
        b.is_finite(),
        c.is_finite(),
    ensures
        !a.sum(b).is_nan(),
        a.sum(b).is_infinite() <==> 2 * abs(a.value() + b.value())
            >= 0x3f_ffff_ffff_ffff * pow2(2045),
        a.sum(b).is_infinite() ==> (a.sum(b).negative() <==> a.value() + b.value() < 0),
        a.sum(b).is_finite() ==> abs(a.sum(b).value() - (a.value() + b.value())) <= abs(
            c.value() - (a.value() + b.value()),
        ),
        a.sum(b).is_finite() && c.value() != a.sum(b).value() && abs(
            a.sum(b).value() - (a.value() + b.value()),
        ) == abs(c.value() - (a.value() + b.value())) ==> a.sum(b).bits % 2 == 0,
        a.value() + b.value() == 0 ==> (a.sum(b).negative() <==> a.negative() && b.negative()),
{
    let exact = a.value() + b.value();
    let num = abs(exact);
    let r = rounding::rounded(num, 1);
    binary64::lemma_one_value();
    lemma_rounded_overflow(num, 1);
    rounding::lemma_rounded(num, 1);
    rounding::lemma_rounded_exact(1, 0);
    lemma_pow2_pos(2045);
    let s = a.sum(b);
    binary64::lemma_zero_code(s);
    binary64::lemma_zero_code(c);
    assert(s.code() == r);
    if s.is_finite() {
        lemma_rounded_is_nearest(num, 1, c.code());
        lemma_rounded_is_nearest(num, 1, 0);
        rounding::lemma_magnitude_order(r, c.code());
    }
}

/// The product of two finite numbers is infinite exactly beyond the last
/// midpoint, and otherwise no finite number is nearer to the exact product; of
/// two that are equally near, the one whose encoding is even is taken.
pub proof fn law_product_is_nearest(a: Binary64, b: Binary64, c: Binary64)
    requires
        a.is_finite(),
        b.is_finite(),
        c.is_finite(),
    ensures
        !a.product(b).is_nan(),
        a.product(b).negative() <==> a.negative() != b.negative(),
        a.product(b).is_infinite() <==> 2 * abs(a.value() * b.value())
            >= pow2(1074) * (0x3f_ffff_ffff_ffff * pow2(2045)),
        a.product(b).is_finite() ==> abs(a.product(b).value() * pow2(1074) - a.value() * b.value())
            <= abs(c.value() * pow2(1074) - a.value() * b.value()),
        a.product(b).is_finite() && c.value() != a.product(b).value() && abs(
            a.product(b).value() * pow2(1074) - a.value() * b.value(),
        ) == abs(c.value() * pow2(1074) - a.value() * b.value()) ==> a.product(b).bits % 2 == 0,
{
    let one = pow2(ONE_EXPONENT as nat);
    lemma_pow2_pos(ONE_EXPONENT as nat);
    let (m, n) = (a.magnitude(), b.magnitude());
    let num = m * n;
    assert(a.value() * b.value() == (if a.negative() != b.negative() { -(num as int) } else { num as int }))
        by (nonlinear_arith)
        requires
            num == m * n,
            a.value() == (if a.negative() { -(m as int) } else { m as int }),
            b.value() == (if b.negative() { -(n as int) } else { n as int }),
    ;
    lemma_signed_nearest(a.product(b), a.negative() != b.negative(), num, one, c);
}

/// What a rounded magnitude with a sign says of the signed rational.
proof fn lemma_signed_nearest(r: Binary64, negative: bool, num: nat, den: nat, c: Binary64)
    requires
        den > 0,
        c.is_finite(),
        r == binary64::signed(negative, rounding::rounded(num, den)),
    ensures
        !r.is_nan(),
        r.negative() == negative,
        r.is_infinite() <==> 2 * num >= den * (0x3f_ffff_ffff_ffff * pow2(2045)),
        ({
            let exact = if negative { -(num as int) } else { num as int };
            let gap = abs(r.value() * den - exact);
            let other = abs(c.value() * den - exact);
            r.is_finite() ==> gap <= other && (gap == other && c.value() != r.value() ==> r.bits % 2
                == 0)
        }),
{
    lemma_rounded_overflow(num, den);
    binary64::lemma_zero_code(c);
    binary64::lemma_zero_code(r);
    if r.is_finite() {
        lemma_rounded_is_nearest(num, den, c.code());
        lemma_rounded_is_nearest(num, den, 0);
        rounding::lemma_magnitude_order(r.code(), c.code());
        let (mr, mc) = (r.magnitude(), c.magnitude());
        assert((-(mr as int)) * den == -(mr * den)) by (nonlinear_arith);
        assert((-(mc as int)) * den == -(mc * den)) by (nonlinear_arith);
        assert(0 * den == 0) by (nonlinear_arith);
        assert(mc * den >= 0) by (nonlinear_arith);
        assert(mc > 0 ==> mc * den > 0) by (nonlinear_arith)
            requires den > 0;
        assert(rounding::magnitude(0) == 0);
    }
}

/// The quotient of two finite numbers, the second not zero, is infinite exactly
/// beyond the last midpoint, and otherwise no finite number is nearer to the
/// exact quotient; of two that are equally near, the one whose encoding is even
/// is taken.
pub proof fn law_quotient_is_nearest(a: Binary64, b: Binary64, c: Binary64)
    requires
        a.is_finite(),
        b.is_finite(),
        c.is_finite(),
        b.value() != 0,
    ensures
        !a.quotient(b).is_nan(),
        a.quotient(b).negative() <==> a.negative() != b.negative(),
        a.quotient(b).is_infinite() <==> 2 * abs(a.value()) * pow2(1074) >= abs(b.value()) * (
            0x3f_ffff_ffff_ffff * pow2(2045)),
        a.quotient(b).is_finite() ==> abs(a.quotient(b).value() * b.value() - a.value() * pow2(1074))
            <= abs(c.value() * b.value() - a.value() * pow2(1074)),
        a.quotient(b).is_finite() && c.value() != a.quotient(b).value() && abs(
            a.quotient(b).value() * b.value() - a.value() * pow2(1074),
        ) == abs(c.value() * b.value() - a.value() * pow2(1074)) ==> a.quotient(b).bits % 2 == 0,
{
    let one = pow2(ONE_EXPONENT as nat);
    lemma_pow2_pos(ONE_EXPONENT as nat);
    binary64::lemma_zero_code(b);
    let num = a.magnitude() * one;
    let den = b.magnitude();
    let negative = a.negative() != b.negative();
    let r = a.quotient(b);
    lemma_signed_nearest(r, negative, num, den, c);
    let exact = if negative { -(num as int) } else { num as int };
    let (vr, vc, va, vb) = (r.value(), c.value(), a.value(), b.value());
    let sign: int = if b.negative() { -1 } else { 1 };
    assert(2 * abs(va) * one == 2 * num) by (nonlinear_arith)
        requires abs(va) == a.magnitude(), num == a.magnitude() * one;
    assert(vr * vb == sign * (vr * den)) by (nonlinear_arith)
        requires vb == sign * den;
    assert(vc * vb == sign * (vc * den)) by (nonlinear_arith)
        requires vb == sign * den;
    assert(va * one == sign * exact) by (nonlinear_arith)
        requires
            num == a.magnitude() * one,
            va == (if a.negative() { -(a.magnitude() as int) } else { a.magnitude() as int }),
            exact == (if a.negative() != b.negative() { -(num as int) } else { num as int }),
            sign == (if b.negative() { -1int } else { 1 }),
    ;
}

/// What is not a number stays none, infinities follow their signs, and the
/// forms without a meaning are not numbers.
pub proof fn law_special_operands(a: Binary64, b: Binary64)
    ensures
        a.is_nan() || b.is_nan() ==> a.sum(b).is_nan() && a.product(b).is_nan() && a.quotient(
            b,
        ).is_nan(),
        a.is_infinite() && b.is_finite() ==> a.sum(b) == a && b.sum(a) == a,
        a.is_infinite() && b.is_infinite() ==> (a.sum(b).is_nan() <==> a.negative()
            != b.negative()) && (a.negative() == b.negative() ==> a.sum(b) == a),
        a.is_infinite() && !b.is_nan() && b.value() != 0 ==> a.product(b).is_infinite() && b.product(
            a,
        ).is_infinite() && (a.product(b).negative() <==> a.negative() != b.negative()) && (b.product(
            a,
        ).negative() <==> a.negative() != b.negative()),
        a.is_infinite() && b.value() == 0 && !b.is_nan() ==> a.product(b).is_nan() && b.product(
            a,
        ).is_nan(),
        a.is_infinite() && b.is_infinite() ==> a.quotient(b).is_nan(),
        a.is_infinite() && b.is_finite() ==> a.quotient(b).is_infinite() && (a.quotient(
            b,
        ).negative() <==> a.negative() != b.negative()),
        a.is_finite() && b.is_infinite() ==> a.quotient(b).value() == 0 && !a.quotient(b).is_nan()
            && (a.quotient(b).negative() <==> a.negative() != b.negative()),
        a.is_finite() && a.value() != 0 && b.is_finite() && b.value() == 0 ==> a.quotient(
            b,
        ).is_infinite() && (a.quotient(b).negative() <==> a.negative() != b.negative()),
        a.is_finite() && a.value() == 0 && b.is_finite() && b.value() == 0 ==> a.quotient(
            b,
        ).is_nan(),
{
    binary64::lemma_zero_code(a);
    binary64::lemma_zero_code(b);
    binary64::lemma_zero_code(a.quotient(b));
}

/// Clipping gives zero for what is not a number or is below zero, one for what
/// is above one, and otherwise the number itself.
pub proof fn law_clipped_value(v: Binary64)
    ensures
        !v.clipped().is_nan(),
        v.is_nan() || v.value() < 0 ==> v.clipped().bits == 0,
        !v.is_nan() && v.value() > pow2(1074) ==> v.clipped().bits == 0x3ff0_0000_0000_0000,
        !v.is_nan() && 0 <= v.value() <= pow2(1074) ==> v.clipped() == v,
{
    binary64::lemma_one_value();
}

} // verus!
