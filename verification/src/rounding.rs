//! Rounding of exact rationals to the 64-bit binary floating-point format.
//!
//! Every finite magnitude of the format is a whole number of units, where one
//! unit is the smallest subnormal, two to the power of minus 1074. A magnitude
//! is written as its *code*: the 63 bits of the encoding below the sign bit.
//! Codes are ordered as the magnitudes are, and neighbours have neighbouring
//! codes, which is what makes round-to-nearest short to state.

use vstd::arithmetic::power2::*;
use vstd::prelude::*;

verus! {

/// The code of one in the lowest bit of the exponent field.
pub const EXPONENT_STEP: u64 = 0x0010_0000_0000_0000;

/// Twice `EXPONENT_STEP`: one more than the largest 53-bit significand.
pub const SIGNIFICAND_LIMIT: u64 = 0x0020_0000_0000_0000;

/// The code of infinity. Larger codes are not numbers.
pub const INFINITY_CODE: u64 = 0x7ff0_0000_0000_0000;

/// How many units one is, as a power of two.
pub const ONE_EXPONENT: u32 = 1074;

/// How far exponents are shifted while a result is being rounded, so that they
/// stay above zero for every product and quotient.
pub const SHIFT: u32 = 2048;

/// The number of units of the magnitude with the given code. The code of
/// infinity stands for the power of two that would follow the largest finite
/// magnitude.
pub open spec fn magnitude(code: nat) -> nat {
    let exponent = code / EXPONENT_STEP as nat;
    let fraction = code % EXPONENT_STEP as nat;
    if exponent == 0 {
        fraction
    } else {
        (EXPONENT_STEP as nat + fraction) * pow2((exponent - 1) as nat)
    }
}

/// Whether `num / den` units is at most halfway from `code` to the code above,
/// with the midpoint going to the even code.
pub open spec fn below_upper_midpoint(num: nat, den: nat, code: nat) -> bool {
    let mid = magnitude(code) + magnitude(code + 1);
    2 * num < den * mid || (2 * num == den * mid && code % 2 == 0)
}

/// Whether `num / den` units is at least halfway from the code below to `code`,
/// with the midpoint going to the even code.
pub open spec fn above_lower_midpoint(num: nat, den: nat, code: nat) -> bool {
    let mid = magnitude((code - 1) as nat) + magnitude(code);
    2 * num > den * mid || (2 * num == den * mid && code % 2 == 0)
}

/// Whether `code` is the nearest to `num / den` units, ties going to the even
/// code and everything beyond the largest finite magnitude to infinity.
pub open spec fn nearest(num: nat, den: nat, code: nat) -> bool {
    &&& code <= INFINITY_CODE
    &&& code < INFINITY_CODE ==> below_upper_midpoint(num, den, code)
    &&& code > 0 ==> above_lower_midpoint(num, den, code)
}

/// The code nearest to `num / den` units.
pub open spec fn rounded(num: nat, den: nat) -> nat {
    choose|code: nat| nearest(num, den, code)
}

/// A significand `q` scaled by `t` has the code `t` exponent steps above `q`.
pub proof fn lemma_magnitude_of_significand(t: nat, q: nat)
    requires
        q <= SIGNIFICAND_LIMIT,
        t == 0 || q >= EXPONENT_STEP,
    ensures
        magnitude(t * EXPONENT_STEP as nat + q) == q * pow2(t),
{
    let step = EXPONENT_STEP as nat;
    let code = t * step + q;
    if q < step {
        lemma2_to64();
        assert(code / step == 0 && code % step == q);
    } else if q < 2 * step {
        assert(code == (t + 1) * step + (q - step)) by (nonlinear_arith)
            requires code == t * step + q;
        vstd::arithmetic::div_mod::lemma_fundamental_div_mod_converse(
            code as int, step as int, (t + 1) as int, (q - step) as int);
    } else {
        assert(code == (t + 2) * step + 0) by (nonlinear_arith)
            requires code == t * step + q, q == 2 * step;
        vstd::arithmetic::div_mod::lemma_fundamental_div_mod_converse(
            code as int, step as int, (t + 2) as int, 0);
        lemma_pow2_unfold(t + 1);
        assert(step * pow2(t + 1) == q * pow2(t)) by (nonlinear_arith)
            requires q == 2 * step, pow2(t + 1) == 2 * pow2(t);
    }
}

/// Every code is some exponent and significand.
pub proof fn lemma_code_splits(code: nat) -> (tq: (nat, nat))
    ensures
        code == tq.0 * EXPONENT_STEP as nat + tq.1,
        tq.1 < SIGNIFICAND_LIMIT,
        tq.0 == 0 || tq.1 >= EXPONENT_STEP,
        magnitude(code) == tq.1 * pow2(tq.0),
        magnitude(code + 1) == (tq.1 + 1) * pow2(tq.0),
{
    let step = EXPONENT_STEP as nat;
    vstd::arithmetic::div_mod::lemma_fundamental_div_mod(code as int, step as int);
    let e = code / step;
    let f = code % step;
    let (t, q) = if e == 0 { (0nat, f) } else { ((e - 1) as nat, step + f) };
    assert(code == t * step + q) by (nonlinear_arith)
        requires
            code == step * e + f,
            (e == 0 && t == 0 && q == f) || (e > 0 && t == e - 1 && q == step + f),
    ;
    lemma_magnitude_of_significand(t, q);
    lemma_magnitude_of_significand(t, q + 1);
    (t, q)
}

/// Neighbouring codes have strictly increasing magnitudes.
pub proof fn lemma_magnitude_next(code: nat)
    ensures
        magnitude(code) < magnitude(code + 1),
{
    let (t, q) = lemma_code_splits(code);
    lemma_pow2_pos(t);
    assert(q * pow2(t) < (q + 1) * pow2(t)) by (nonlinear_arith)
        requires pow2(t) > 0;
}

/// Codes are ordered as their magnitudes are.
pub proof fn lemma_magnitude_increases(a: nat, b: nat)
    requires
        a < b,
    ensures
        magnitude(a) < magnitude(b),
    decreases b - a,
{
    lemma_magnitude_next(a);
    if a + 1 < b {
        lemma_magnitude_increases(a + 1, b);
    }
}

/// Codes and magnitudes determine each other.
pub proof fn lemma_magnitude_order(a: nat, b: nat)
    ensures
        a < b <==> magnitude(a) < magnitude(b),
        a == b <==> magnitude(a) == magnitude(b),
{
    if a < b {
        lemma_magnitude_increases(a, b);
    } else if b < a {
        lemma_magnitude_increases(b, a);
    }
}

/// Rounding keeps the order of the rationals.
pub proof fn lemma_nearest_monotone(num1: nat, den1: nat, a: nat, num2: nat, den2: nat, b: nat)
    requires
        den1 > 0,
        den2 > 0,
        num1 * den2 <= num2 * den1,
        nearest(num1, den1, a),
        nearest(num2, den2, b),
    ensures
        a <= b,
{
    if a > b {
        let low = magnitude((a - 1) as nat) + magnitude(a);
        let high = magnitude(b) + magnitude(b + 1);
        lemma_magnitude_order(b, (a - 1) as nat);
        lemma_magnitude_order((b + 1) as nat, a);
        assert(high <= low);
        assert(2 * num1 >= den1 * low && 2 * num2 <= den2 * high);
        assert(high == low && 2 * num1 == den1 * low && 2 * num2 == den2 * high) by (nonlinear_arith)
            requires
                den1 > 0,
                den2 > 0,
                num1 * den2 <= num2 * den1,
                2 * num1 >= den1 * low,
                2 * num2 <= den2 * high,
                high <= low,
        {
            assert(2 * num1 * den2 >= den1 * low * den2);
            assert(2 * num2 * den1 <= den2 * high * den1);
            assert(den1 * low * den2 == (den1 * den2) * low);
            assert(den2 * high * den1 == (den1 * den2) * high);
            assert((den1 * den2) * low <= (den1 * den2) * high);
            assert(den1 * den2 > 0);
            assert(low <= high);
            assert(2 * num1 * den2 <= den1 * low * den2);
            assert(2 * num2 * den1 >= den2 * high * den1);
        }
        assert(magnitude(b) == magnitude((a - 1) as nat));
        assert(b == a - 1);
        assert(a % 2 == 0 && b % 2 == 0);
    }
}

/// Some code at or above `from` is the nearest, if the rational is not below it.
proof fn lemma_nearest_exists_from(num: nat, den: nat, from: nat) -> (code: nat)
    requires
        from <= INFINITY_CODE,
        from > 0 ==> above_lower_midpoint(num, den, from),
    ensures
        nearest(num, den, code),
    decreases INFINITY_CODE - from,
{
    if from == INFINITY_CODE || below_upper_midpoint(num, den, from) {
        from
    } else {
        lemma_nearest_exists_from(num, den, from + 1)
    }
}

/// There is exactly one nearest code.
pub proof fn lemma_rounded(num: nat, den: nat)
    requires
        den > 0,
    ensures
        nearest(num, den, rounded(num, den)),
        forall|code: nat| nearest(num, den, code) ==> code == rounded(num, den),
{
    let witness = lemma_nearest_exists_from(num, den, 0);
    assert forall|code: nat| nearest(num, den, code) implies code == rounded(num, den) by {
        lemma_nearest_monotone(num, den, code, num, den, rounded(num, den));
        lemma_nearest_monotone(num, den, rounded(num, den), num, den, code);
    }
}

/// A magnitude of the format is rounded to itself.
pub proof fn lemma_rounded_exact(den: nat, code: nat)
    requires
        den > 0,
        code <= INFINITY_CODE,
    ensures
        rounded(den * magnitude(code), den) == code,
{
    let m = magnitude(code);
    lemma_magnitude_next(code);
    let up = m + magnitude(code + 1);
    assert(2 * (den * m) < den * up) by (nonlinear_arith)
        requires den > 0, 2 * m < up;
    if code > 0 {
        lemma_magnitude_next((code - 1) as nat);
        let down = magnitude((code - 1) as nat) + m;
        assert(2 * (den * m) > den * down) by (nonlinear_arith)
            requires den > 0, 2 * m > down;
    }
    lemma_rounded(den * m, den);
    assert(nearest(den * m, den, code));
}

/// Rounding keeps the order of the rationals.
pub proof fn lemma_rounded_monotone(num1: nat, den1: nat, num2: nat, den2: nat)
    requires
        den1 > 0,
        den2 > 0,
        num1 * den2 <= num2 * den1,
    ensures
        rounded(num1, den1) <= rounded(num2, den2),
{
    lemma_rounded(num1, den1);
    lemma_rounded(num2, den2);
    lemma_nearest_monotone(
        num1, den1, rounded(num1, den1), num2, den2, rounded(num2, den2));
}

/// What lies between a truncated significand and the exact one, in last places.
#[derive(Clone, Copy, PartialEq, Eq, Structural)]
pub enum Rest {
    /// Nothing.
    Zero,
    /// Something less than half.
    Below,
    /// Exactly half.
    Half,
    /// More than half, less than one.
    Above,
}

/// Whether `num / den` units is the significand `q` and `rest` of its last
/// place, where a last place is two to the power of `x - SHIFT` units.
pub open spec fn located(num: nat, den: nat, q: nat, x: nat, rest: Rest) -> bool {
    let n = num * pow2(SHIFT as nat);
    let place = den * pow2(x);
    match rest {
        Rest::Zero => n == q * place,
        Rest::Below => q * place < n && 2 * n < (2 * q + 1) * place,
        Rest::Half => 2 * n == (2 * q + 1) * place,
        Rest::Above => (2 * q + 1) * place < 2 * n && n < (q + 1) * place,
    }
}

/// Dropping the lowest bit of the significand.
proof fn lemma_located_halve(num: nat, den: nat, q: nat, x: nat, rest: Rest)
    requires
        den > 0,
        located(num, den, q, x, rest),
    ensures
        located(num, den, q / 2, x + 1, halved_rest(q, rest)),
{
    let n = num * pow2(SHIFT as nat);
    let place = den * pow2(x);
    let wide = den * pow2(x + 1);
    let h = q / 2;
    let b = q % 2;
    lemma_pow2_unfold(x + 1);
    lemma_pow2_pos(x);
    assert(place > 0 && wide == 2 * place) by (nonlinear_arith)
        requires
            den > 0,
            pow2(x) > 0,
            pow2(x + 1) == 2 * pow2(x),
            place == den * pow2(x),
            wide == den * pow2(x + 1),
    ;
    assert(q * place == h * wide + b * place) by (nonlinear_arith)
        requires q == 2 * h + b, wide == 2 * place;
    assert((q + 1) * place == q * place + place) by (nonlinear_arith);
    assert((2 * q + 1) * place == 2 * (q * place) + place) by (nonlinear_arith);
    assert((2 * h + 1) * wide == 2 * (h * wide) + wide) by (nonlinear_arith);
    assert((h + 1) * wide == h * wide + wide) by (nonlinear_arith);
    assert(b == 0 ==> b * place == 0) by (nonlinear_arith);
    assert(b == 1 ==> b * place == place) by (nonlinear_arith);
}

/// The rest after the lowest bit of `q` has joined it.
pub open spec fn halved_rest(q: nat, rest: Rest) -> Rest {
    if q % 2 == 0 {
        if rest == Rest::Zero { Rest::Zero } else { Rest::Below }
    } else {
        if rest == Rest::Zero { Rest::Half } else { Rest::Above }
    }
}

/// Adding a zero bit below an exact significand.
proof fn lemma_located_double(num: nat, den: nat, q: nat, x: nat)
    requires
        x > 0,
        located(num, den, q, x, Rest::Zero),
    ensures
        located(num, den, 2 * q, (x - 1) as nat, Rest::Zero),
{
    lemma_pow2_unfold(x);
    let p = pow2((x - 1) as nat);
    assert(q * (den * pow2(x)) == (2 * q) * (den * p)) by (nonlinear_arith)
        requires pow2(x) == 2 * p;
}

/// Whether `num / den` units is the magnitude of `code` and `rest` of the step
/// to the code above.
spec fn between(num: nat, den: nat, code: nat, rest: Rest) -> bool {
    let a = magnitude(code);
    let b = magnitude(code + 1);
    match rest {
        Rest::Zero => num == den * a,
        Rest::Below => den * a < num && 2 * num < den * (a + b),
        Rest::Half => 2 * num == den * (a + b),
        Rest::Above => den * (a + b) < 2 * num && num < den * b,
    }
}

/// A located significand of the format's width fixes the two codes around the
/// rational.
proof fn lemma_located_between(num: nat, den: nat, q: nat, t: nat, rest: Rest)
    requires
        q < SIGNIFICAND_LIMIT,
        t == 0 || q >= EXPONENT_STEP,
        located(num, den, q, t + SHIFT as nat, rest),
    ensures
        between(num, den, t * EXPONENT_STEP as nat + q, rest),
{
    let code = t * EXPONENT_STEP as nat + q;
    let s = pow2(SHIFT as nat);
    let p = pow2(t);
    let place = den * pow2(t + SHIFT as nat);
    let n = num * s;
    lemma_pow2_adds(t, SHIFT as nat);
    lemma_pow2_pos(SHIFT as nat);
    lemma_magnitude_of_significand(t, q);
    lemma_magnitude_of_significand(t, q + 1);
    let a = magnitude(code);
    let b = magnitude(code + 1);
    assert(place == den * p * s) by (nonlinear_arith)
        requires place == den * pow2(t + SHIFT as nat), pow2(t + SHIFT as nat) == p * s;
    assert(q * place == (den * a) * s) by (nonlinear_arith)
        requires place == den * p * s, a == q * p;
    assert((q + 1) * place == (den * b) * s) by (nonlinear_arith)
        requires place == den * p * s, b == (q + 1) * p;
    assert((2 * q + 1) * place == (den * (a + b)) * s) by (nonlinear_arith)
        requires place == den * p * s, a == q * p, b == (q + 1) * p;
    lemma_scaled_order(num, den * a, s);
    lemma_scaled_order(num, den * b, s);
    lemma_scaled_order(2 * num, den * (a + b), s);
    assert((2 * num) * s == 2 * n) by (nonlinear_arith)
        requires n == num * s;
}

/// A positive factor keeps order and equality.
proof fn lemma_scaled_order(m: nat, n: nat, s: nat)
    by (nonlinear_arith)
    requires
        s > 0,
    ensures
        m * s < n * s <==> m < n,
        m * s == n * s <==> m == n,
{
}

/// The rest says which of the two codes around a rational is nearest.
proof fn lemma_between_nearest(num: nat, den: nat, code: nat, rest: Rest)
    requires
        den > 0,
        between(num, den, code, rest),
    ensures
        ({
            let up = rest == Rest::Above || (rest == Rest::Half && code % 2 == 1);
            let result = if up { code + 1 } else { code };
            nearest(num, den, if result < INFINITY_CODE { result } else { INFINITY_CODE as nat })
        }),
{
    let a = magnitude(code);
    let b = magnitude(code + 1);
    let c = magnitude(code + 2);
    let up = rest == Rest::Above || (rest == Rest::Half && code % 2 == 1);
    let result = if up { code + 1 } else { code };
    lemma_magnitude_next(code);
    lemma_magnitude_next(code + 1);
    assert(den * (a + b) == den * a + den * b) by (nonlinear_arith);
    assert(den * (b + c) == den * b + den * c) by (nonlinear_arith);
    assert(den * a < den * b) by (nonlinear_arith)
        requires den > 0, a < b;
    assert(den * b < den * c) by (nonlinear_arith)
        requires den > 0, b < c;
    assert(num >= den * a);
    assert(below_upper_midpoint(num, den, result));
    if code > 0 {
        lemma_magnitude_next((code - 1) as nat);
        let z = magnitude((code - 1) as nat);
        assert(den * (z + a) < 2 * (den * a)) by (nonlinear_arith)
            requires den > 0, z < a;
    }
    assert(result > 0 ==> above_lower_midpoint(num, den, result));
    if result > INFINITY_CODE {
        let top = INFINITY_CODE as nat;
        let low = magnitude((top - 1) as nat) + magnitude(top);
        lemma_magnitude_order((top - 1) as nat, code);
        lemma_magnitude_order(top, code);
        assert(den * low < 2 * (den * a)) by (nonlinear_arith)
            requires den > 0, low < 2 * a;
        assert(above_lower_midpoint(num, den, top));
    }
}

/// The code nearest to a rational of which the significand `q`, its exponent
/// and the rest are known. Where the rest is not zero, `q` must be wider than
/// the format's significands.
pub(crate) fn round(q: u128, x: u32, rest: Rest, num: Ghost<nat>, den: Ghost<nat>) -> (code: u64)
    requires
        den@ > 0,
        x < 0x10000,
        rest == Rest::Zero || q >= SIGNIFICAND_LIMIT,
        located(num@, den@, q as nat, x as nat, rest),
    ensures
        code == rounded(num@, den@),
        code <= INFINITY_CODE,
{
    proof {
        lemma_rounded(num@, den@);
    }
    if q == 0 {
        proof {
            assert(located(num@, den@, 0, x as nat, Rest::Zero));
            let s = pow2(SHIFT as nat);
            lemma_pow2_pos(SHIFT as nat);
            let n = num@;
            assert(n == 0) by (nonlinear_arith)
                requires n * s == 0 * (den@ * pow2(x as nat)), s > 0;
            assert(den@ * 0 == 0) by (nonlinear_arith);
            lemma_rounded_exact(den@, 0);
        }
        return 0;
    }
    let mut q: u128 = q;
    let mut x: u32 = x;
    let mut rest: Rest = rest;
    while q < EXPONENT_STEP as u128 && x > SHIFT
        invariant
            q < EXPONENT_STEP ==> rest == Rest::Zero,
            rest == Rest::Zero || q >= SIGNIFICAND_LIMIT,
            x < 0x10000,
            q > 0,
            located(num@, den@, q as nat, x as nat, rest),
        decreases x,
    {
        proof {
            lemma_located_double(num@, den@, q as nat, x as nat);
        }
        q = q * 2;
        x = x - 1;
    }
    let ghost mut dropped: nat = 0;
    proof {
        lemma2_to64();
        lemma_pow2_adds(64, 64);
    }
    while q >= SIGNIFICAND_LIMIT as u128 || x < SHIFT
        invariant
            den@ > 0,
            x < SHIFT || q >= EXPONENT_STEP || x == SHIFT,
            dropped <= 128,
            x < 0x10000 + dropped,
            q < pow2((128 - dropped) as nat),
            located(num@, den@, q as nat, x as nat, rest),
        decreases q, SHIFT - x,
    {
        proof {
            lemma_located_halve(num@, den@, q as nat, x as nat, rest);
            if q >= SIGNIFICAND_LIMIT {
                lemma2_to64();
                assert(dropped < 128);
                lemma_pow2_unfold((128 - dropped) as nat);
                dropped = dropped + 1;
            }
        }
        rest = if q % 2 == 0 {
            if rest == Rest::Zero { Rest::Zero } else { Rest::Below }
        } else {
            if rest == Rest::Zero { Rest::Half } else { Rest::Above }
        };
        q = q / 2;
        x = x + 1;
    }
    let t: u32 = x - SHIFT;
    proof {
        lemma_located_between(num@, den@, q as nat, t as nat, rest);
        lemma_between_nearest(num@, den@, t as nat * EXPONENT_STEP as nat + q as nat, rest);
        assert((t * EXPONENT_STEP + q) % 2 == q % 2) by {
            assert(t * EXPONENT_STEP == 2 * (t * 0x8_0000_0000_0000)) by (nonlinear_arith)
                requires EXPONENT_STEP == 2 * 0x8_0000_0000_0000;
        }
    }
    if t >= 2046 {
        return INFINITY_CODE;
    }
    let code: u64 = t as u64 * EXPONENT_STEP + q as u64;
    let up: bool = match rest {
        Rest::Above => true,
        Rest::Half => q % 2 == 1,
        _ => false,
    };
    if up { code + 1 } else { code }
}

} // verus!
