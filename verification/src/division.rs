//! Division and square root of scalars.
//!
//! Neither result is a multiple of a power of two in general, so each is
//! first taken to more bits than a significand holds, one last bit saying
//! whether anything was cut off, and then rounded.
use crate::rounding::{
    bit_length, bit_length_of, lemma_bit_length_bounds, power_of_two, round, rounded,
};
use crate::scalar::{Scalar, HIDDEN_BIT, INFINITY_BITS};
use vstd::arithmetic::div_mod::lemma_fundamental_div_mod;
use vstd::arithmetic::power2::{
    lemma2_to64_rest, lemma_pow2_adds, lemma_pow2_strictly_increases, pow2,
};
use vstd::prelude::*;

verus! {

/// `2^62`: the bits by which a dividend, or the argument of a root, is
/// scaled before the integer operation.
pub const SCALE: u128 = 0x4000_0000_0000_0000;

/// The exponent that belongs to `SCALE`.
pub const SCALE_BITS: i64 = 62;

/// The left shift that brings a positive significand to fifty-three bits.
pub open spec fn normal_shift(m: nat) -> nat {
    (53 - bit_length(m)) as nat
}

/// `r` is the integer square root of `x`.
pub open spec fn is_integer_root(r: nat, x: nat) -> bool {
    r * r <= x < (r + 1) * (r + 1)
}

/// The integer square root of `x`: the largest `r` with `r · r <= x`.
pub open spec fn integer_root(x: nat) -> nat {
    choose|r: nat| #[trigger] is_integer_root(r, x)
}

/// Every natural number has an integer square root.
pub proof fn lemma_integer_root_exists(x: nat)
    ensures
        is_integer_root(integer_root(x), x),
    decreases x,
{
    if x == 0 {
        assert(is_integer_root(0, 0)) by (nonlinear_arith);
    } else {
        lemma_integer_root_exists((x - 1) as nat);
        let r = integer_root((x - 1) as nat);
        if (r + 1) * (r + 1) <= x {
            assert(is_integer_root(r + 1, x)) by (nonlinear_arith)
                requires
                    (r + 1) * (r + 1) <= x,
                    x - 1 < (r + 1) * (r + 1),
            ;
        } else {
            assert(is_integer_root(r, x)) by (nonlinear_arith)
                requires
                    r * r <= x - 1,
                    x < (r + 1) * (r + 1),
            ;
        }
    }
}

/// There is one integer square root.
pub proof fn lemma_integer_root_unique(r: nat, x: nat)
    requires
        is_integer_root(r, x),
    ensures
        integer_root(x) == r,
{
    let s = integer_root(x);
    assert(is_integer_root(s, x));
    if s < r {
        assert((s + 1) * (s + 1) <= r * r) by (nonlinear_arith)
            requires
                s + 1 <= r,
        ;
    } else if r < s {
        assert((r + 1) * (r + 1) <= s * s) by (nonlinear_arith)
            requires
                r + 1 <= s,
        ;
    }
}

/// The quotient of two positive integers with an exponent, as the integer
/// that `rounded` takes: the quotient of the scaled dividend, doubled, its
/// last bit set when the division left a remainder.
pub open spec fn jammed_quotient(num: nat, den: nat) -> nat {
    let scaled = num * SCALE as nat;
    2 * (scaled / den) + if scaled % den == 0 {
        0nat
    } else {
        1nat
    }
}

/// The square root of a positive integer as the integer that `rounded`
/// takes: the integer root of the scaled argument, doubled, its last bit set
/// when the root is not exact.
pub open spec fn jammed_root(x: nat) -> nat {
    let scaled = x * SCALE as nat;
    let r = integer_root(scaled);
    2 * r + if r * r == scaled {
        0nat
    } else {
        1nat
    }
}

/// What the last bit of a jammed quotient says: the integer is twice the
/// exact quotient of the scaled dividend when it is even, and lies strictly
/// between the two even integers around twice that quotient when it is odd.
pub proof fn lemma_jammed_quotient_brackets(num: nat, den: nat)
    requires
        den > 0,
    ensures
        ({
            let twice = 2 * (num * SCALE as nat);
            let jam = jammed_quotient(num, den);
            if jam % 2 == 0 {
                jam * den == twice
            } else {
                (jam - 1) * den < twice < (jam + 1) * den
            }
        }),
{
    let scaled = num * SCALE as nat;
    lemma_fundamental_div_mod(scaled as int, den as int);
    let k = scaled / den;
    let rest = scaled % den;
    assert(scaled == den * k + rest);
    assert(0 <= rest < den);
    let jam = jammed_quotient(num, den);
    if rest == 0 {
        assert(jam == 2 * k);
        assert((2 * k) * den == 2 * (den * k)) by (nonlinear_arith);
    } else {
        assert(jam == 2 * k + 1);
        assert((2 * k) * den == 2 * (den * k)) by (nonlinear_arith);
        assert((2 * k + 2) * den == 2 * (den * k) + 2 * den) by (nonlinear_arith);
    }
}

/// What the last bit of a jammed root says: the integer is twice the exact
/// root of the scaled argument when it is even, and lies strictly between
/// the two even integers around twice that root when it is odd.
pub proof fn lemma_jammed_root_brackets(x: nat)
    ensures
        ({
            let four = 4 * (x * SCALE as nat);
            let jam = jammed_root(x);
            if jam % 2 == 0 {
                jam * jam == four
            } else {
                (jam - 1) * (jam - 1) < four < (jam + 1) * (jam + 1)
            }
        }),
{
    let scaled = x * SCALE as nat;
    let r = integer_root(scaled);
    lemma_integer_root_exists(scaled);
    let jam = jammed_root(x);
    if r * r == scaled {
        assert(jam == 2 * r);
        assert((2 * r) * (2 * r) == 4 * (r * r)) by (nonlinear_arith);
    } else {
        assert(jam == 2 * r + 1);
        assert((2 * r) * (2 * r) == 4 * (r * r)) by (nonlinear_arith);
        assert((2 * r + 2) * (2 * r + 2) == 4 * ((r + 1) * (r + 1))) by (nonlinear_arith);
    }
}

/// The integer square root.
pub fn integer_root_of(x: u128) -> (r: u128)
    requires
        x < 0x10_0000_0000_0000_0000_0000_0000_0000,
    ensures
        r == integer_root(x as nat),
        is_integer_root(r as nat, x as nat),
        r < 0x0400_0000_0000_0000,
{
    let mut low: u128 = 0;
    let mut high: u128 = 0x0400_0000_0000_0000;
    assert(0x0400_0000_0000_0000 * 0x0400_0000_0000_0000
        == 0x10_0000_0000_0000_0000_0000_0000_0000);
    while high - low > 1
        invariant
            low < high <= 0x0400_0000_0000_0000,
            low * low <= x < high * high,
        decreases high - low,
    {
        let mid: u128 = low + (high - low) / 2;
        assert(mid * mid < 0x0400_0000_0000_0000 * 0x0400_0000_0000_0000) by (nonlinear_arith)
            requires
                mid < 0x0400_0000_0000_0000,
        ;
        if mid * mid <= x {
            low = mid;
        } else {
            high = mid;
        }
    }
    proof {
        lemma_integer_root_unique(low as nat, x as nat);
    }
    low
}

impl Scalar {
    /// `self / other`: a NaN gives the NaN, as do `0 / 0` and two
    /// infinities; a finite scalar over zero is an infinity; every other
    /// quotient is the exact one rounded.
    #[verifier::opaque]
    pub open spec fn div_spec(self, other: Scalar) -> Scalar {
        let negative = self.negative() != other.negative();
        if self.is_nan() || other.is_nan() {
            Scalar::nan_spec()
        } else if self.is_infinite() {
            if other.is_infinite() {
                Scalar::nan_spec()
            } else {
                Scalar::compose(negative, INFINITY_BITS)
            }
        } else if other.is_infinite() {
            Scalar::compose(negative, 0)
        } else if other.is_zero() {
            if self.is_zero() {
                Scalar::nan_spec()
            } else {
                Scalar::compose(negative, INFINITY_BITS)
            }
        } else if self.is_zero() {
            Scalar::compose(negative, 0)
        } else {
            let sa = normal_shift(self.significand());
            let sb = normal_shift(other.significand());
            rounded(
                negative,
                jammed_quotient(
                    self.significand() * pow2(sa),
                    other.significand() * pow2(sb),
                ),
                (self.exponent() - sa) - (other.exponent() - sb) - SCALE_BITS - 1,
            )
        }
    }

    /// The square root: the NaN for a NaN and for a negative scalar, the
    /// argument itself for a zero and for infinity, else the exact root
    /// rounded.
    #[verifier::opaque]
    pub open spec fn sqrt_spec(self) -> Scalar {
        if self.is_nan() {
            Scalar::nan_spec()
        } else if self.is_zero() {
            Scalar::compose(self.negative(), 0)
        } else if self.negative() {
            Scalar::nan_spec()
        } else if self.is_infinite() {
            Scalar::compose(false, INFINITY_BITS)
        } else {
            let shift = normal_shift(self.significand());
            let m = self.significand() * pow2(shift);
            let e = self.exponent() - shift;
            if e % 2 == 0 {
                rounded(false, jammed_root(m), (e - SCALE_BITS) / 2 - 1)
            } else {
                rounded(false, jammed_root(2 * m), (e - 1 - SCALE_BITS) / 2 - 1)
            }
        }
    }

    /// Brings a positive significand to fifty-three bits and lowers the
    /// exponent by as much.
    pub fn normalize(m: u64, e: i64) -> (r: (u64, i64))
        requires
            0 < m < 2 * HIDDEN_BIT,
            -4096 <= e <= 4096,
        ensures
            r.0 == m * pow2(normal_shift(m as nat)),
            r.1 == e - normal_shift(m as nat),
            HIDDEN_BIT <= r.0 < 2 * HIDDEN_BIT,
            normal_shift(m as nat) <= 52,
    {
        let len: u32 = bit_length_of(m as u128);
        proof {
            lemma_bit_length_bounds(m as nat);
            lemma2_to64_rest();
            if len > 53 {
                lemma_pow2_strictly_increases(53, (len - 1) as nat);
            }
        }
        let shift: u32 = 53 - len;
        let p: u128 = power_of_two(shift);
        proof {
            lemma_pow2_adds((len - 1) as nat, shift as nat);
            lemma_pow2_adds(len as nat, shift as nat);
            assert(pow2((len - 1) as nat) * p <= m * p) by (nonlinear_arith)
                requires
                    pow2((len - 1) as nat) <= m,
                    p > 0,
            ;
            assert(m * p < pow2(len as nat) * p) by (nonlinear_arith)
                requires
                    m < pow2(len as nat),
                    p > 0,
            ;
        }
        let scaled: u128 = (m as u128) * p;
        (scaled as u64, e - (shift as i64))
    }

    pub fn div(self, other: Scalar) -> (r: Scalar)
        ensures
            r == self.div_spec(other),
    {
        reveal(Scalar::div_spec);
        let negative: bool = self.is_sign_negative() != other.is_sign_negative();
        if self.nan() || other.nan() {
            return Scalar::not_a_number();
        }
        if self.infinite() {
            if other.infinite() {
                return Scalar::not_a_number();
            }
            return Scalar::infinity(negative);
        }
        if other.infinite() {
            return Scalar::signed_zero(negative);
        }
        if other.zero() {
            if self.zero() {
                return Scalar::not_a_number();
            }
            return Scalar::infinity(negative);
        }
        if self.zero() {
            return Scalar::signed_zero(negative);
        }
        let (ma, ea) = self.parts();
        let (mb, eb) = other.parts();
        let (na, fa) = Scalar::normalize(ma, ea);
        let (nb, fb) = Scalar::normalize(mb, eb);
        assert(na * SCALE < 2 * HIDDEN_BIT * SCALE) by (nonlinear_arith)
            requires
                na < 2 * HIDDEN_BIT,
                SCALE > 0,
        ;
        let scaled: u128 = (na as u128) * SCALE;
        let quotient: u128 = scaled / (nb as u128);
        let rest: u128 = scaled % (nb as u128);
        let sticky: u128 = if rest == 0 { 0 } else { 1 };
        round(negative, 2 * quotient + sticky, fa - fb - SCALE_BITS - 1)
    }

    pub fn sqrt(self) -> (r: Scalar)
        ensures
            r == self.sqrt_spec(),
    {
        reveal(Scalar::sqrt_spec);
        if self.nan() {
            return Scalar::not_a_number();
        }
        if self.zero() {
            return Scalar::signed_zero(self.is_sign_negative());
        }
        if self.is_sign_negative() {
            return Scalar::not_a_number();
        }
        if self.infinite() {
            return Scalar::infinity(false);
        }
        let (m, e) = self.parts();
        let (n, f) = Scalar::normalize(m, e);
        let odd: bool = ((f + 4096) as u64) % 2 == 1;
        let (n2, f2): (u128, i64) = if odd { (2 * (n as u128), f - 1) } else { (n as u128, f) };
        assert(n2 * SCALE < 4 * HIDDEN_BIT * SCALE) by (nonlinear_arith)
            requires
                n2 < 4 * HIDDEN_BIT,
                SCALE > 0,
        ;
        let scaled: u128 = n2 * SCALE;
        let root: u128 = integer_root_of(scaled);
        assert(root * root < 0x0400_0000_0000_0000 * 0x0400_0000_0000_0000) by (nonlinear_arith)
            requires
                root < 0x0400_0000_0000_0000,
        ;
        let sticky: u128 = if root * root == scaled { 0 } else { 1 };
        let half: i64 = (f2 - SCALE_BITS + 8192) / 2 - 4096;
        round(false, 2 * root + sticky, half - 1)
    }
}

} // verus!
