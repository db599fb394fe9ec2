//! Addition, multiplication and division of 64-bit binary floating-point
//! numbers, in integer arithmetic.

use crate::binary64;
use crate::binary64::Binary64;
use crate::rounding;
use crate::rounding::{
    round, Rest, EXPONENT_STEP, INFINITY_CODE, ONE_EXPONENT, SHIFT, SIGNIFICAND_LIMIT,
};
use vstd::arithmetic::power2::*;
use vstd::prelude::*;

verus! {

/// `q` times two to the power of `d`.
fn scaled(q: u64, d: u32) -> (r: u128)
    requires
        q < SIGNIFICAND_LIMIT,
        d <= 74,
    ensures
        r == q * pow2(d as nat),
        r < 0x8000_0000_0000_0000_0000_0000_0000_0000,
{
    let mut r: u128 = q as u128;
    let mut i: u32 = 0;
    proof {
        lemma2_to64();
    }
    while i < d
        invariant
            q < SIGNIFICAND_LIMIT,
            i <= d <= 74,
            r == q * pow2(i as nat),
        decreases d - i,
    {
        proof {
            lemma_scaled_bound(q as nat, i as nat);
            lemma_pow2_unfold((i + 1) as nat);
            assert(q * pow2((i + 1) as nat) == 2 * (q * pow2(i as nat))) by (nonlinear_arith)
                requires pow2((i + 1) as nat) == 2 * pow2(i as nat);
        }
        r = r * 2;
        i = i + 1;
    }
    proof {
        lemma_scaled_bound(q as nat, d as nat);
    }
    r
}

proof fn lemma_scaled_bound(q: nat, d: nat)
    requires
        q < SIGNIFICAND_LIMIT,
        d <= 74,
    ensures
        q * pow2(d) < 0x8000_0000_0000_0000_0000_0000_0000_0000,
{
    lemma2_to64();
    lemma2_to64_rest();
    lemma_pow2_adds(64, 10);
    if d < 74 {
        lemma_pow2_strictly_increases(d, 74);
    }
    let p = pow2(d);
    let m = pow2(74);
    assert(q * p < 0x20_0000_0000_0000 * m) by (nonlinear_arith)
        requires q < 0x20_0000_0000_0000, 0 <= p <= m, m > 0;
}

/// The significand and the exponent of a finite code.
fn split(code: u64) -> (qe: (u64, u32))
    requires
        code < INFINITY_CODE,
    ensures
        code == qe.1 * EXPONENT_STEP + qe.0,
        qe.0 < SIGNIFICAND_LIMIT,
        qe.1 <= 2045,
        qe.1 == 0 || qe.0 >= EXPONENT_STEP,
        rounding::magnitude(code as nat) == qe.0 * pow2(qe.1 as nat),
{
    let e: u64 = code / EXPONENT_STEP;
    let f: u64 = code % EXPONENT_STEP;
    let (q, t): (u64, u64) = if e == 0 { (f, 0) } else { (EXPONENT_STEP + f, e - 1) };
    proof {
        rounding::lemma_magnitude_of_significand(t as nat, q as nat);
    }
    (q, t as u32)
}

/// Adding what is more than 64 doublings smaller changes no nearest code.
proof fn lemma_absorbs(big: nat, q: nat, e: nat, small: nat, q2: nat, e2: nat, num: nat)
    requires
        big < INFINITY_CODE,
        big == e * EXPONENT_STEP + q,
        EXPONENT_STEP <= q < SIGNIFICAND_LIMIT,
        rounding::magnitude(big) == q * pow2(e),
        e > e2 + 64,
        q2 < SIGNIFICAND_LIMIT,
        small == q2 * pow2(e2),
        num == rounding::magnitude(big) + small || num == rounding::magnitude(big) - small,
    ensures
        rounding::rounded(num, 1) == big,
{
    let m = rounding::magnitude(big);
    let step = EXPONENT_STEP as nat;
    let half = pow2((e - 1) as nat);
    lemma_pow2_unfold(e);
    lemma2_to64();
    lemma2_to64_rest();
    // The small summand is below a quarter of the narrower neighbouring step.
    lemma_pow2_adds(55, e2);
    if e2 + 55 < e - 1 {
        lemma_pow2_strictly_increases(e2 + 55, (e - 1) as nat);
    }
    lemma_pow2_pos(e2);
    assert(4 * small < pow2(55) * pow2(e2)) by (nonlinear_arith)
        requires
            small == q2 * pow2(e2),
            4 * q2 < pow2(55),
            pow2(e2) > 0,
    ;
    assert(4 * small < half);
    rounding::lemma_magnitude_of_significand(e, q + 1);
    assert((q + 1) * pow2(e) == q * pow2(e) + pow2(e)) by (nonlinear_arith);
    assert(rounding::magnitude(big + 1) == m + 2 * half);
    if q > step {
        rounding::lemma_magnitude_of_significand(e, (q - 1) as nat);
        assert((q - 1) * pow2(e) == q * pow2(e) - pow2(e)) by (nonlinear_arith);
    } else {
        let low = (SIGNIFICAND_LIMIT - 1) as nat;
        assert((big - 1) as nat == (e - 1) as nat * step + low) by (nonlinear_arith)
            requires big == e * step + q, q == step, low == 2 * step - 1, e >= 1;
        rounding::lemma_magnitude_of_significand((e - 1) as nat, low);
        assert(q * pow2(e) == low * half + half) by (nonlinear_arith)
            requires pow2(e) == 2 * half, q == step, low == 2 * step - 1;
    }
    assert(rounding::magnitude((big - 1) as nat) + half <= m);
    rounding::lemma_rounded(num, 1);
    assert(rounding::nearest(num, 1, big));
}

impl Binary64 {
    /// The sum of two numbers.
    pub fn add(self, other: Binary64) -> (r: Binary64)
        ensures
            r == self.sum(other),
    {
        let (na, a) = self.parts();
        let (nb, b) = other.parts();
        if a > INFINITY_CODE || b > INFINITY_CODE {
            return Binary64::nan();
        }
        if a == INFINITY_CODE {
            if b == INFINITY_CODE && na != nb {
                return Binary64::nan();
            }
            return self;
        }
        if b == INFINITY_CODE {
            return other;
        }
        proof {
            rounding::lemma_magnitude_order(a as nat, b as nat);
            rounding::lemma_magnitude_order(b as nat, a as nat);
            binary64::lemma_zero_code(self);
            binary64::lemma_zero_code(other);
        }
        if a == b && (na != nb || a == 0) {
            return if na && nb { Binary64::negative_zero() } else { Binary64::zero() };
        }
        let (negative, large, small): (bool, u64, u64) = if a >= b { (na, a, b) } else { (nb, b, a) };
        let ghost exact: nat = if na == nb {
            rounding::magnitude(large as nat) + rounding::magnitude(small as nat)
        } else {
            (rounding::magnitude(large as nat) - rounding::magnitude(small as nat)) as nat
        };
        assert(self.sum(other) == binary64::signed(negative, rounding::rounded(exact, 1)));
        let (q1, e1) = split(large);
        let (q2, e2) = split(small);
        assert(e1 >= e2) by (nonlinear_arith)
            requires
                large >= small,
                large == e1 * EXPONENT_STEP + q1,
                small == e2 * EXPONENT_STEP + q2,
                q1 < SIGNIFICAND_LIMIT,
                q2 < SIGNIFICAND_LIMIT,
                EXPONENT_STEP == 0x10_0000_0000_0000,
                SIGNIFICAND_LIMIT == 0x20_0000_0000_0000,
                e2 == 0 || q2 >= EXPONENT_STEP,
        ;
        let d: u32 = e1 - e2;
        if d > 64 {
            proof {
                lemma_absorbs(
                    large as nat, q1 as nat, e1 as nat,
                    rounding::magnitude(small as nat), q2 as nat, e2 as nat, exact);
            }
            return Binary64::from_parts(negative, large);
        }
        let wide: u128 = scaled(q1, d);
        proof {
            lemma_pow2_adds(d as nat, e2 as nat);
            let (pd, pe) = (pow2(d as nat), pow2(e2 as nat));
            assert(q1 * pow2(e1 as nat) == wide * pe) by (nonlinear_arith)
                requires pow2(e1 as nat) == pd * pe, wide == q1 * pd;
            lemma_pow2_pos(d as nat);
            lemma_pow2_pos(e2 as nat);
            assert(q2 * pe <= wide * pe ==> q2 <= wide) by (nonlinear_arith)
                requires pe > 0;
        }
        let q: u128 = if na == nb { wide + q2 as u128 } else { wide - q2 as u128 };
        let x: u32 = e2 + SHIFT;
        proof {
            let (pe, ps) = (pow2(e2 as nat), pow2(SHIFT as nat));
            lemma_pow2_adds(e2 as nat, SHIFT as nat);
            assert((wide + q2) * pe == wide * pe + q2 * pe) by (nonlinear_arith);
            assert((wide - q2) * pe == wide * pe - q2 * pe) by (nonlinear_arith);
            assert(exact == q * pe);
            assert(exact * ps == q * (1 * pow2(x as nat))) by (nonlinear_arith)
                requires exact == q * pe, pow2(x as nat) == pe * ps;
        }
        let code: u64 = round(q, x, Rest::Zero, Ghost(exact), Ghost(1));
        Binary64::from_parts(negative, code)
    }

    /// The product of two numbers.
    pub fn mul(self, other: Binary64) -> (r: Binary64)
        ensures
            r == self.product(other),
    {
        let (na, a) = self.parts();
        let (nb, b) = other.parts();
        let negative: bool = na != nb;
        if a > INFINITY_CODE || b > INFINITY_CODE {
            return Binary64::nan();
        }
        proof {
            binary64::lemma_zero_code(self);
            binary64::lemma_zero_code(other);
        }
        if a == INFINITY_CODE || b == INFINITY_CODE {
            return if a == 0 || b == 0 {
                Binary64::nan()
            } else {
                Binary64::from_parts(negative, INFINITY_CODE)
            };
        }
        let (q1, e1) = split(a);
        let (q2, e2) = split(b);
        assert(q1 * q2 < 0x4_0000_0000_0000_0000_0000_0000_0000) by (nonlinear_arith)
            requires q1 < 0x20_0000_0000_0000, q2 < 0x20_0000_0000_0000;
        let q: u128 = q1 as u128 * q2 as u128;
        let x: u32 = e1 + e2 + (SHIFT - ONE_EXPONENT);
        let ghost exact: nat = self.magnitude() * other.magnitude();
        let ghost one: nat = pow2(ONE_EXPONENT as nat);
        proof {
            lemma_pow2_pos(ONE_EXPONENT as nat);
            let (p1, p2, ps, px) = (
                pow2(e1 as nat), pow2(e2 as nat), pow2(SHIFT as nat), pow2(x as nat));
            lemma_pow2_adds(e1 as nat, e2 as nat);
            lemma_pow2_adds((e1 + e2) as nat, SHIFT as nat);
            lemma_pow2_adds(ONE_EXPONENT as nat, x as nat);
            assert(p1 * p2 * ps == one * px);
            assert(exact * ps == q * (one * px)) by (nonlinear_arith)
                requires
                    p1 * p2 * ps == one * px,
                    q == q1 * q2,
                    exact == (q1 * p1) * (q2 * p2),
            ;
        }
        let code: u64 = round(q, x, Rest::Zero, Ghost(exact), Ghost(one));
        Binary64::from_parts(negative, code)
    }

    /// The quotient of two numbers.
    pub fn div(self, other: Binary64) -> (r: Binary64)
        ensures
            r == self.quotient(other),
    {
        let (na, a) = self.parts();
        let (nb, b) = other.parts();
        let negative: bool = na != nb;
        if a > INFINITY_CODE || b > INFINITY_CODE {
            return Binary64::nan();
        }
        if a == INFINITY_CODE {
            return if b == INFINITY_CODE {
                Binary64::nan()
            } else {
                Binary64::from_parts(negative, INFINITY_CODE)
            };
        }
        if b == INFINITY_CODE {
            return Binary64::from_parts(negative, 0);
        }
        proof {
            binary64::lemma_zero_code(self);
            binary64::lemma_zero_code(other);
        }
        if b == 0 {
            return if a == 0 {
                Binary64::nan()
            } else {
                Binary64::from_parts(negative, INFINITY_CODE)
            };
        }
        let ghost exact: nat = self.magnitude() * pow2(ONE_EXPONENT as nat);
        if a == 0 {
            proof {
                let m = other.magnitude();
                assert(m * 0 == 0 && 0 * pow2(ONE_EXPONENT as nat) == 0) by (nonlinear_arith);
                rounding::lemma_rounded_exact(m, 0);
            }
            return Binary64::from_parts(negative, 0);
        }
        let (q1, e1) = split(a);
        let (q2, e2) = split(b);
        let (n, y) = normalized(q1, e1);
        let wide: u128 = scaled(n, 74);
        let q: u128 = wide / q2 as u128;
        let r: u128 = wide % q2 as u128;
        let x: u32 = y + (ONE_EXPONENT - 74) - e2;
        let rest: Rest = if r == 0 {
            Rest::Zero
        } else if r + r < q2 as u128 {
            Rest::Below
        } else if r + r == q2 as u128 {
            Rest::Half
        } else {
            Rest::Above
        };
        proof {
            lemma_quotient_located(
                self.magnitude(), other.magnitude(),
                n as nat, y as nat, q2 as nat, e2 as nat, q as nat, r as nat, x as nat);
        }
        let code: u64 = round(q, x, rest, Ghost(exact), Ghost(other.magnitude()));
        Binary64::from_parts(negative, code)
    }
}

/// A significand with its top bit set, and its exponent counted from `SHIFT`
/// doublings below a unit.
fn normalized(q: u64, e: u32) -> (ny: (u64, u32))
    requires
        0 < q < SIGNIFICAND_LIMIT,
        e <= 2045,
    ensures
        EXPONENT_STEP <= ny.0 < SIGNIFICAND_LIMIT,
        SHIFT - 64 <= ny.1 <= SHIFT + 2045,
        ny.0 * pow2(ny.1 as nat) == (q * pow2(e as nat)) * pow2(SHIFT as nat),
{
    let mut n: u64 = q;
    let mut y: u32 = e + SHIFT;
    proof {
        lemma_pow2_adds(e as nat, SHIFT as nat);
        assert(n * pow2(y as nat) == (q * pow2(e as nat)) * pow2(SHIFT as nat)) by (nonlinear_arith)
            requires n == q, pow2(y as nat) == pow2(e as nat) * pow2(SHIFT as nat);
        lemma2_to64();
    }
    let ghost mut k: nat = 0;
    while n < EXPONENT_STEP
        invariant
            0 < n < SIGNIFICAND_LIMIT,
            n >= pow2(k),
            k <= 53,
            y == e + SHIFT - k,
            e <= 2045,
            n * pow2(y as nat) == (q * pow2(e as nat)) * pow2(SHIFT as nat),
        decreases SIGNIFICAND_LIMIT - n,
    {
        proof {
            lemma2_to64();
            lemma2_to64_rest();
            if k > 52 {
                lemma_pow2_strictly_increases(52, k);
            }
            lemma_pow2_unfold(y as nat);
            let p = pow2((y - 1) as nat);
            assert((2 * n) * p == n * pow2(y as nat)) by (nonlinear_arith)
                requires pow2(y as nat) == 2 * p;
            lemma_pow2_unfold(k + 1);
            k = k + 1;
        }
        n = n * 2;
        y = y - 1;
    }
    (n, y)
}

/// Where an integer quotient with its remainder locates the exact one.
proof fn lemma_quotient_located(
    a: nat, b: nat, n: nat, y: nat, q2: nat, e2: nat, q: nat, r: nat, x: nat)
    requires
        EXPONENT_STEP <= n < SIGNIFICAND_LIMIT,
        0 < q2 < SIGNIFICAND_LIMIT,
        b == q2 * pow2(e2),
        a * pow2(SHIFT as nat) == n * pow2(y),
        x == y + 1000 - e2,
        y + 1000 >= e2,
        q == (n * pow2(74)) / q2,
        r == (n * pow2(74)) % q2,
    ensures
        b > 0,
        q >= SIGNIFICAND_LIMIT,
        rounding::located(a * pow2(ONE_EXPONENT as nat), b, q, x,
            if r == 0 { Rest::Zero } else if r + r < q2 { Rest::Below }
            else if r + r == q2 { Rest::Half } else { Rest::Above }),
{
    let wide = n * pow2(74);
    vstd::arithmetic::div_mod::lemma_fundamental_div_mod(wide as int, q2 as int);
    lemma_pow2_pos(e2);
    lemma_pow2_pos(x);
    let place = b * pow2(x);
    let p = pow2(e2) * pow2(x);
    lemma_pow2_adds(e2, x);
    lemma_pow2_pos(e2 + x);
    assert(b > 0) by (nonlinear_arith)
        requires b == q2 * pow2(e2), q2 > 0, pow2(e2) > 0;
    assert(place == q2 * p) by (nonlinear_arith)
        requires place == (q2 * pow2(e2)) * pow2(x), p == pow2(e2) * pow2(x);
    lemma_pow2_adds(74, 1000);
    lemma_pow2_adds(y, 1000);
    let num = a * pow2(ONE_EXPONENT as nat);
    let s = pow2(SHIFT as nat);
    assert(num * s == wide * p) by (nonlinear_arith)
        requires
            num == a * pow2(ONE_EXPONENT as nat),
            pow2(ONE_EXPONENT as nat) == pow2(74) * pow2(1000),
            a * s == n * pow2(y),
            p == pow2(y) * pow2(1000),
            wide == n * pow2(74),
    {
        assert(num * s == (a * s) * (pow2(74) * pow2(1000)));
        assert((n * pow2(y)) * (pow2(74) * pow2(1000)) == (n * pow2(74)) * (pow2(y) * pow2(1000)));
    }
    assert(wide * p == q * place + r * p) by (nonlinear_arith)
        requires wide == q2 * q + r, place == q2 * p;
    assert((2 * q + 1) * place == 2 * (q * place) + q2 * p) by (nonlinear_arith)
        requires place == q2 * p;
    assert((q + 1) * place == q * place + q2 * p) by (nonlinear_arith)
        requires place == q2 * p;
    assert(p > 0);
    assert(r == 0 ==> r * p == 0) by (nonlinear_arith);
    assert(r > 0 ==> r * p > 0) by (nonlinear_arith)
        requires p > 0;
    assert(2 * r < q2 ==> 2 * (r * p) < q2 * p) by (nonlinear_arith)
        requires p > 0;
    assert(2 * r == q2 ==> 2 * (r * p) == q2 * p) by (nonlinear_arith);
    assert(2 * r > q2 ==> 2 * (r * p) > q2 * p) by (nonlinear_arith)
        requires p > 0;
    assert(r * p < q2 * p) by (nonlinear_arith)
        requires p > 0, r < q2;
    lemma2_to64();
    lemma2_to64_rest();
    lemma_pow2_adds(64, 10);
    assert(q >= SIGNIFICAND_LIMIT) by (nonlinear_arith)
        requires
            wide == q2 * q + r,
            r < q2,
            q2 < 0x20_0000_0000_0000,
            wide == n * 0x400_0000_0000_0000_0000,
            n >= 0x10_0000_0000_0000,
            SIGNIFICAND_LIMIT == 0x20_0000_0000_0000,
    ;
}

} // verus!
