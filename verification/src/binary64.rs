//! The 64-bit binary floating-point numbers that scores and weights are.

use crate::rounding;
use crate::rounding::{EXPONENT_STEP, INFINITY_CODE, ONE_EXPONENT};
use vstd::arithmetic::power2::*;
use vstd::prelude::*;

verus! {

/// The sign bit of the encoding.
pub const SIGN_BIT: u64 = 0x8000_0000_0000_0000;

/// A 64-bit binary floating-point number, given by its encoding.
#[derive(Clone, Copy)]
pub struct Binary64 {
    pub bits: u64,
}

/// The number with the given sign and code.
pub open spec fn signed(negative: bool, code: nat) -> Binary64 {
    Binary64 { bits: (if negative { SIGN_BIT + code } else { code as int }) as u64 }
}

impl Binary64 {
    /// Positive zero.
    #[verifier::allow_in_spec]
    pub fn zero() -> Binary64
        returns
            (Binary64 { bits: 0 }),
    {
        Binary64 { bits: 0 }
    }

    /// Negative zero.
    #[verifier::allow_in_spec]
    pub fn negative_zero() -> Binary64
        returns
            (Binary64 { bits: 0x8000_0000_0000_0000 }),
    {
        Binary64 { bits: 0x8000_0000_0000_0000 }
    }

    /// One.
    #[verifier::allow_in_spec]
    pub fn one() -> Binary64
        returns
            (Binary64 { bits: 0x3ff0_0000_0000_0000 }),
    {
        Binary64 { bits: 0x3ff0_0000_0000_0000 }
    }

    /// The quiet not-a-number that invalid operations give.
    #[verifier::allow_in_spec]
    pub fn nan() -> Binary64
        returns
            (Binary64 { bits: 0x7ff8_0000_0000_0000 }),
    {
        Binary64 { bits: 0x7ff8_0000_0000_0000 }
    }

    /// Whether the sign bit is set.
    pub open spec fn negative(self) -> bool {
        self.bits >= SIGN_BIT
    }

    /// The encoding without its sign bit.
    pub open spec fn code(self) -> nat {
        if self.negative() { (self.bits - SIGN_BIT) as nat } else { self.bits as nat }
    }

    /// Whether this is not a number.
    pub open spec fn is_nan(self) -> bool {
        self.code() > INFINITY_CODE
    }

    /// Whether this is one of the two infinities.
    pub open spec fn is_infinite(self) -> bool {
        self.code() == INFINITY_CODE
    }

    /// Whether this is neither infinite nor not a number.
    pub open spec fn is_finite(self) -> bool {
        self.code() < INFINITY_CODE
    }

    /// The number of units without its sign.
    pub open spec fn magnitude(self) -> nat {
        rounding::magnitude(self.code())
    }

    /// The number of units; beyond all finite ones for an infinity.
    pub open spec fn value(self) -> int {
        if self.negative() { -(self.magnitude() as int) } else { self.magnitude() as int }
    }

    /// The IEEE 754 order: a number that is not one is below nothing.
    pub open spec fn below(self, other: Binary64) -> bool {
        !self.is_nan() && !other.is_nan() && self.value() < other.value()
    }

    /// The IEEE 754 equality: the two zeros are equal, what is not a number
    /// equals nothing.
    pub open spec fn equals(self, other: Binary64) -> bool {
        !self.is_nan() && !other.is_nan() && self.value() == other.value()
    }

    /// Whether this is a number from zero to one.
    pub open spec fn in_unit_interval(self) -> bool {
        !self.is_nan() && 0 <= self.value() <= Binary64::one().value()
    }

    /// This number moved into the unit interval.
    pub open spec fn clipped(self) -> Binary64 {
        if self.is_nan() || self.value() < 0 {
            Binary64::zero()
        } else if self.value() > Binary64::one().value() {
            Binary64::one()
        } else {
            self
        }
    }

    /// The sum, rounded to nearest.
    pub open spec fn sum(self, other: Binary64) -> Binary64 {
        if self.is_nan() || other.is_nan() {
            Binary64::nan()
        } else if self.is_infinite() {
            if other.is_infinite() && self.negative() != other.negative() { Binary64::nan() } else { self }
        } else if other.is_infinite() {
            other
        } else {
            let exact = self.value() + other.value();
            if exact == 0 {
                if self.negative() && other.negative() { Binary64::negative_zero() } else { Binary64::zero() }
            } else if exact < 0 {
                signed(true, rounding::rounded((-exact) as nat, 1))
            } else {
                signed(false, rounding::rounded(exact as nat, 1))
            }
        }
    }

    /// The product, rounded to nearest.
    pub open spec fn product(self, other: Binary64) -> Binary64 {
        let negative = self.negative() != other.negative();
        if self.is_nan() || other.is_nan() {
            Binary64::nan()
        } else if self.is_infinite() || other.is_infinite() {
            if self.value() == 0 || other.value() == 0 {
                Binary64::nan()
            } else {
                signed(negative, INFINITY_CODE as nat)
            }
        } else {
            signed(
                negative,
                rounding::rounded(self.magnitude() * other.magnitude(), pow2(ONE_EXPONENT as nat)),
            )
        }
    }

    /// The quotient, rounded to nearest.
    pub open spec fn quotient(self, other: Binary64) -> Binary64 {
        let negative = self.negative() != other.negative();
        if self.is_nan() || other.is_nan() {
            Binary64::nan()
        } else if self.is_infinite() {
            if other.is_infinite() { Binary64::nan() } else { signed(negative, INFINITY_CODE as nat) }
        } else if other.is_infinite() {
            signed(negative, 0)
        } else if other.value() == 0 {
            if self.value() == 0 { Binary64::nan() } else { signed(negative, INFINITY_CODE as nat) }
        } else {
            signed(
                negative,
                rounding::rounded(self.magnitude() * pow2(ONE_EXPONENT as nat), other.magnitude()),
            )
        }
    }
}

/// Only the zeros have no magnitude.
pub proof fn lemma_zero_code(a: Binary64)
    ensures
        a.value() == 0 <==> a.code() == 0,
        a.value() < 0 <==> a.negative() && a.code() != 0,
        a.value() > 0 <==> !a.negative() && a.code() != 0,
{
    rounding::lemma_magnitude_order(0, a.code());
    rounding::lemma_magnitude_order(a.code(), 0);
}

/// One is `ONE_EXPONENT` doublings of a unit.
pub proof fn lemma_one_value()
    ensures
        Binary64::one().value() == pow2(ONE_EXPONENT as nat),
        Binary64::one().is_finite(),
        Binary64::zero().value() == 0,
        Binary64::negative_zero().value() == 0,
{
    rounding::lemma_magnitude_of_significand(1022, EXPONENT_STEP as nat);
    lemma2_to64();
    lemma2_to64_rest();
    lemma_pow2_adds(52, 1022);
    lemma_zero_code(Binary64::zero());
    lemma_zero_code(Binary64::negative_zero());
}

impl Binary64 {
    /// The sign and the code.
    pub(crate) fn parts(self) -> (nc: (bool, u64))
        ensures
            nc.0 == self.negative(),
            nc.1 == self.code(),
    {
        if self.bits >= SIGN_BIT { (true, self.bits - SIGN_BIT) } else { (false, self.bits) }
    }

    /// The number with the given sign and code.
    pub(crate) fn from_parts(negative: bool, code: u64) -> (r: Binary64)
        requires
            code < SIGN_BIT,
        ensures
            r == signed(negative, code as nat),
    {
        Binary64 { bits: if negative { SIGN_BIT + code } else { code } }
    }

    /// Whether this is not a number.
    pub fn is_not_a_number(self) -> (r: bool)
        ensures
            r == self.is_nan(),
    {
        let (_, code) = self.parts();
        code > INFINITY_CODE
    }

    /// Whether this is below `other`.
    pub fn less_than(self, other: Binary64) -> (r: bool)
        ensures
            r == self.below(other),
    {
        let (na, a) = self.parts();
        let (nb, b) = other.parts();
        proof {
            rounding::lemma_magnitude_order(a as nat, b as nat);
            rounding::lemma_magnitude_order(b as nat, a as nat);
            lemma_zero_code(self);
            lemma_zero_code(other);
        }
        if a > INFINITY_CODE || b > INFINITY_CODE {
            false
        } else if na {
            if nb { b < a } else { a != 0 || b != 0 }
        } else {
            !nb && a < b
        }
    }

    /// Whether this equals `other`; the two zeros are equal.
    pub fn equal_to(self, other: Binary64) -> (r: bool)
        ensures
            r == self.equals(other),
    {
        let (na, a) = self.parts();
        let (nb, b) = other.parts();
        proof {
            rounding::lemma_magnitude_order(a as nat, b as nat);
            lemma_zero_code(self);
            lemma_zero_code(other);
        }
        if a > INFINITY_CODE || b > INFINITY_CODE {
            false
        } else {
            a == b && (na == nb || a == 0)
        }
    }
}

impl PartialEq for Binary64 {
    fn eq(&self, other: &Binary64) -> (r: bool) {
        self.equal_to(*other)
    }
}

impl vstd::std_specs::cmp::PartialEqSpecImpl for Binary64 {
    open spec fn obeys_eq_spec() -> bool {
        true
    }

    open spec fn eq_spec(&self, other: &Binary64) -> bool {
        self.equals(*other)
    }
}

} // verus!
