//! Binary64 numbers held as their 64-bit encodings.
//!
//! A `Scalar` is one sign bit, eleven exponent bits and fifty-two fraction
//! bits. Every operation on it is integer code; its meaning is given by
//! `significand` and `exponent`: a finite scalar stands for
//! `±significand · 2^exponent`.
use vstd::prelude::*;

verus! {

/// The sign bit of an encoding.
pub const SIGN_BIT: u64 = 0x8000_0000_0000_0000;

/// The implicit leading bit of a normal significand, `2^52`.
pub const HIDDEN_BIT: u64 = 0x0010_0000_0000_0000;

/// The magnitude bits of an infinity; every larger magnitude is a NaN.
pub const INFINITY_BITS: u64 = 0x7FF0_0000_0000_0000;

/// The NaN that every operation of this library returns.
pub const NAN_BITS: u64 = 0x7FF8_0000_0000_0000;

/// The smallest exponent of a finite scalar.
pub const MIN_EXPONENT: i64 = -1074;

#[derive(Clone, Copy, Debug)]
pub struct Scalar {
    pub bits: u64,
}

impl Scalar {
    /// The sign bit is set (also true of `-0`, and of some NaNs).
    pub open spec fn negative(self) -> bool {
        self.bits >= SIGN_BIT
    }

    /// The encoding without its sign bit.
    pub open spec fn magnitude(self) -> u64 {
        if self.bits >= SIGN_BIT {
            (self.bits - SIGN_BIT) as u64
        } else {
            self.bits
        }
    }

    pub open spec fn is_nan(self) -> bool {
        self.magnitude() > INFINITY_BITS
    }

    pub open spec fn is_infinite(self) -> bool {
        self.magnitude() == INFINITY_BITS
    }

    pub open spec fn is_finite(self) -> bool {
        self.magnitude() < INFINITY_BITS
    }

    pub open spec fn is_zero(self) -> bool {
        self.magnitude() == 0
    }

    /// The eleven exponent bits.
    pub open spec fn exponent_field(self) -> int {
        self.magnitude() as int / HIDDEN_BIT as int
    }

    /// The fifty-two fraction bits.
    pub open spec fn fraction(self) -> int {
        self.magnitude() as int % HIDDEN_BIT as int
    }

    /// The integer `m` of a finite scalar `±m · 2^e`.
    pub open spec fn significand(self) -> nat {
        if self.exponent_field() == 0 {
            self.fraction() as nat
        } else {
            (HIDDEN_BIT + self.fraction()) as nat
        }
    }

    /// The integer `e` of a finite scalar `±m · 2^e`.
    pub open spec fn exponent(self) -> int {
        if self.exponent_field() == 0 {
            MIN_EXPONENT as int
        } else {
            self.exponent_field() - 1075
        }
    }

    /// The significand with its sign: the scalar stands for
    /// `signed_significand · 2^exponent`.
    pub open spec fn signed_significand(self) -> int {
        if self.negative() {
            -(self.significand() as int)
        } else {
            self.significand() as int
        }
    }

    /// A number that orders the scalars that are no NaN as their values are
    /// ordered: the magnitude bits grow with the absolute value, and both
    /// zeros get 0.
    pub open spec fn rank(self) -> int {
        if self.negative() {
            -(self.magnitude() as int)
        } else {
            self.magnitude() as int
        }
    }

    /// `self < other` as binary64 defines it: false when either is a NaN.
    pub open spec fn lt_spec(self, other: Scalar) -> bool {
        !self.is_nan() && !other.is_nan() && self.rank() < other.rank()
    }

    /// `self <= other` as binary64 defines it: false when either is a NaN.
    pub open spec fn le_spec(self, other: Scalar) -> bool {
        !self.is_nan() && !other.is_nan() && self.rank() <= other.rank()
    }

    /// `self == other` as binary64 defines it: false when either is a NaN,
    /// true of the two zeros.
    pub open spec fn eq_spec(self, other: Scalar) -> bool {
        !self.is_nan() && !other.is_nan() && self.rank() == other.rank()
    }

    /// The scalar with the given sign bit and magnitude bits.
    pub open spec fn compose(negative: bool, magnitude: u64) -> Scalar {
        Scalar { bits: if negative { (magnitude + SIGN_BIT) as u64 } else { magnitude } }
    }

    pub open spec fn neg_spec(self) -> Scalar {
        Scalar::compose(!self.negative(), self.magnitude())
    }

    pub open spec fn abs_spec(self) -> Scalar {
        Scalar::compose(false, self.magnitude())
    }

    /// `min` of binary64: the other operand when one is a NaN, else the
    /// smaller one (`self` when they are equal).
    pub open spec fn min_spec(self, other: Scalar) -> Scalar {
        if self.is_nan() {
            other
        } else if other.is_nan() {
            self
        } else if other.rank() < self.rank() {
            other
        } else {
            self
        }
    }

    /// The NaN that the operations of this library return.
    pub open spec fn nan_spec() -> Scalar {
        Scalar { bits: NAN_BITS }
    }

    pub fn not_a_number() -> (r: Scalar)
        ensures
            r == Scalar::nan_spec(),
            r.is_nan(),
    {
        Scalar { bits: NAN_BITS }
    }

    pub fn infinity(negative: bool) -> (r: Scalar)
        ensures
            r == Scalar::compose(negative, INFINITY_BITS),
            r.is_infinite(),
            r.negative() == negative,
    {
        Scalar::from_parts(negative, INFINITY_BITS)
    }

    pub fn signed_zero(negative: bool) -> (r: Scalar)
        ensures
            r == Scalar::compose(negative, 0),
            r.is_zero(),
            r.negative() == negative,
    {
        Scalar::from_parts(negative, 0)
    }

    pub fn from_bits(bits: u64) -> (r: Scalar)
        ensures
            r.bits == bits,
    {
        Scalar { bits }
    }

    pub fn to_bits(self) -> (r: u64)
        ensures
            r == self.bits,
    {
        self.bits
    }

    /// Puts a sign bit and magnitude bits together.
    pub fn from_parts(negative: bool, magnitude: u64) -> (r: Scalar)
        requires
            magnitude < SIGN_BIT,
        ensures
            r == Scalar::compose(negative, magnitude),
            r.negative() == negative,
            r.magnitude() == magnitude,
    {
        if negative {
            Scalar { bits: magnitude + SIGN_BIT }
        } else {
            Scalar { bits: magnitude }
        }
    }

    pub fn is_sign_negative(self) -> (r: bool)
        ensures
            r == self.negative(),
    {
        self.bits >= SIGN_BIT
    }

    /// The magnitude bits.
    pub fn abs_bits(self) -> (r: u64)
        ensures
            r == self.magnitude(),
            r < SIGN_BIT,
    {
        if self.bits >= SIGN_BIT {
            self.bits - SIGN_BIT
        } else {
            self.bits
        }
    }

    pub fn nan(self) -> (r: bool)
        ensures
            r == self.is_nan(),
    {
        self.abs_bits() > INFINITY_BITS
    }

    pub fn infinite(self) -> (r: bool)
        ensures
            r == self.is_infinite(),
    {
        self.abs_bits() == INFINITY_BITS
    }

    pub fn finite(self) -> (r: bool)
        ensures
            r == self.is_finite(),
    {
        self.abs_bits() < INFINITY_BITS
    }

    pub fn zero(self) -> (r: bool)
        ensures
            r == self.is_zero(),
    {
        self.abs_bits() == 0
    }

    pub fn neg(self) -> (r: Scalar)
        ensures
            r == self.neg_spec(),
    {
        Scalar::from_parts(!self.is_sign_negative(), self.abs_bits())
    }

    pub fn abs(self) -> (r: Scalar)
        ensures
            r == self.abs_spec(),
    {
        Scalar::from_parts(false, self.abs_bits())
    }

    pub fn lt(self, other: Scalar) -> (r: bool)
        ensures
            r == self.lt_spec(other),
    {
        if self.nan() || other.nan() {
            return false;
        }
        let a: u64 = self.abs_bits();
        let b: u64 = other.abs_bits();
        if self.is_sign_negative() {
            if other.is_sign_negative() {
                b < a
            } else {
                a > 0 || b > 0
            }
        } else {
            if other.is_sign_negative() {
                false
            } else {
                a < b
            }
        }
    }

    pub fn le(self, other: Scalar) -> (r: bool)
        ensures
            r == self.le_spec(other),
    {
        if self.nan() || other.nan() {
            return false;
        }
        let a: u64 = self.abs_bits();
        let b: u64 = other.abs_bits();
        if self.is_sign_negative() {
            if other.is_sign_negative() {
                b <= a
            } else {
                true
            }
        } else {
            if other.is_sign_negative() {
                a == 0 && b == 0
            } else {
                a <= b
            }
        }
    }

    pub fn eq(self, other: Scalar) -> (r: bool)
        ensures
            r == self.eq_spec(other),
    {
        if self.nan() || other.nan() {
            return false;
        }
        let a: u64 = self.abs_bits();
        let b: u64 = other.abs_bits();
        if self.is_sign_negative() == other.is_sign_negative() {
            a == b
        } else {
            a == 0 && b == 0
        }
    }

    pub fn gt(self, other: Scalar) -> (r: bool)
        ensures
            r == other.lt_spec(self),
    {
        other.lt(self)
    }

    pub fn min(self, other: Scalar) -> (r: Scalar)
        ensures
            r == self.min_spec(other),
    {
        if self.nan() {
            other
        } else if other.nan() {
            self
        } else if other.lt(self) {
            other
        } else {
            self
        }
    }

    /// The integer `m` and the integer `e` of a finite scalar `±m · 2^e`.
    pub fn parts(self) -> (r: (u64, i64))
        requires
            self.is_finite(),
        ensures
            r.0 == self.significand(),
            r.1 == self.exponent(),
            r.0 < 2 * HIDDEN_BIT,
            MIN_EXPONENT <= r.1 <= 971,
            r.1 > MIN_EXPONENT ==> r.0 >= HIDDEN_BIT,
            self.magnitude() == (r.1 - MIN_EXPONENT) * HIDDEN_BIT + r.0,
            (r.0 == 0) == self.is_zero(),
    {
        let mag: u64 = self.abs_bits();
        let field: u64 = mag / HIDDEN_BIT;
        let frac: u64 = mag % HIDDEN_BIT;
        if field == 0 {
            (frac, MIN_EXPONENT)
        } else {
            (HIDDEN_BIT + frac, field as i64 - 1075)
        }
    }
}

} // verus!
