//! Scalars from integers and back, and the scalars that the renderer names.
use crate::exact::{lemma_parts_of, lemma_rounded_short};
use crate::rounding::{bit_length, lemma_bit_length_bounds, power_of_two, round, rounded};
use crate::scalar::{Scalar, HIDDEN_BIT};
use vstd::arithmetic::div_mod::{lemma_basic_div, lemma_fundamental_div_mod_converse};
use vstd::arithmetic::power2::{
    lemma2_to64, lemma2_to64_rest, lemma_pow2_pos, lemma_pow2_strictly_increases, pow2,
};
use vstd::prelude::*;

verus! {

/// The encoding of `1.0`.
pub const ONE_BITS: u64 = 0x3FF0_0000_0000_0000;

/// The encoding of `0.5`.
pub const HALF_BITS: u64 = 0x3FE0_0000_0000_0000;

/// The encoding of `2.0`.
pub const TWO_BITS: u64 = 0x4000_0000_0000_0000;

impl Scalar {
    /// The whole part of a finite scalar's absolute value.
    pub open spec fn whole_part(self) -> nat {
        if self.exponent() >= 0 {
            self.significand() * pow2(self.exponent() as nat)
        } else {
            self.significand() / pow2((-self.exponent()) as nat)
        }
    }

    /// The scalar as an unsigned integer: the fraction is dropped, a NaN and
    /// every negative scalar give 0, and what is too large gives the largest
    /// integer.
    pub open spec fn to_u64_spec(self) -> u64 {
        if self.is_nan() || self.negative() {
            0
        } else if self.is_infinite() || self.whole_part() > u64::MAX {
            u64::MAX
        } else {
            self.whole_part() as u64
        }
    }

    /// The scalar as a `u32`: as `to_u64_spec`, cut off at the largest `u32`.
    pub open spec fn to_u32_spec(self) -> u32 {
        if self.to_u64_spec() > u32::MAX {
            u32::MAX
        } else {
            self.to_u64_spec() as u32
        }
    }

    /// The scalar as a `usize`: as `to_u64_spec`, cut off at the largest
    /// `usize`.
    pub open spec fn to_usize_spec(self) -> usize {
        if self.to_u64_spec() > usize::MAX {
            usize::MAX
        } else {
            self.to_u64_spec() as usize
        }
    }

    /// The scalar nearest to an integer.
    pub open spec fn from_int_spec(n: nat) -> Scalar {
        rounded(false, n, 0)
    }

    pub open spec fn one_spec() -> Scalar {
        Scalar { bits: ONE_BITS }
    }

    pub fn from_u64(n: u64) -> (r: Scalar)
        ensures
            r == Scalar::from_int_spec(n as nat),
    {
        round(false, n as u128, 0)
    }

    pub fn from_usize(n: usize) -> (r: Scalar)
        ensures
            r == Scalar::from_int_spec(n as nat),
    {
        round(false, n as u128, 0)
    }

    pub fn from_u32(n: u32) -> (r: Scalar)
        ensures
            r == Scalar::from_int_spec(n as nat),
    {
        round(false, n as u128, 0)
    }

    pub fn to_u64(self) -> (r: u64)
        ensures
            r == self.to_u64_spec(),
    {
        if self.nan() || self.is_sign_negative() {
            return 0;
        }
        if self.infinite() {
            return u64::MAX;
        }
        let (m, e) = self.parts();
        proof {
            lemma2_to64();
            lemma2_to64_rest();
        }
        if e >= 0 {
            if e >= 12 {
                proof {
                    if e > 12 {
                        lemma_pow2_strictly_increases(12, e as nat);
                    }
                    assert(m * pow2(e as nat) >= HIDDEN_BIT * pow2(12)) by (nonlinear_arith)
                        requires
                            m >= HIDDEN_BIT,
                            pow2(e as nat) >= pow2(12),
                    ;
                }
                return u64::MAX;
            }
            let p: u128 = power_of_two(e as u32);
            proof {
                if e < 11 {
                    lemma_pow2_strictly_increases(e as nat, 11);
                }
                assert(m * p <= 2 * HIDDEN_BIT * 2048) by (nonlinear_arith)
                    requires
                        m <= 2 * HIDDEN_BIT,
                        p <= 2048,
                ;
            }
            let v: u128 = (m as u128) * p;
            if v > u64::MAX as u128 {
                u64::MAX
            } else {
                v as u64
            }
        } else {
            let shift: i64 = -e;
            if shift >= 64 {
                proof {
                    if shift > 64 {
                        lemma_pow2_strictly_increases(64, shift as nat);
                    }
                    lemma_basic_div(m as int, pow2(shift as nat) as int);
                }
                return 0;
            }
            let p: u128 = power_of_two(shift as u32);
            ((m as u128) / p) as u64
        }
    }

    pub fn to_u32(self) -> (r: u32)
        ensures
            r == self.to_u32_spec(),
    {
        let v: u64 = self.to_u64();
        if v > u32::MAX as u64 {
            u32::MAX
        } else {
            v as u32
        }
    }

    pub fn to_usize(self) -> (r: usize)
        ensures
            r == self.to_usize_spec(),
    {
        let v: u64 = self.to_u64();
        if v > usize::MAX as u64 {
            usize::MAX
        } else {
            v as usize
        }
    }

    pub fn one() -> (r: Scalar)
        ensures
            r == Scalar::one_spec(),
    {
        Scalar { bits: ONE_BITS }
    }

    pub fn half() -> (r: Scalar)
        ensures
            r.bits == HALF_BITS,
    {
        Scalar { bits: HALF_BITS }
    }

    pub fn two() -> (r: Scalar)
        ensures
            r.bits == TWO_BITS,
    {
        Scalar { bits: TWO_BITS }
    }
}

/// The integers below `2^53` are scalars: the way to a scalar and back
/// gives the integer.
pub proof fn lemma_small_integers_are_exact(n: nat)
    requires
        n < 2 * HIDDEN_BIT,
    ensures
        Scalar::from_int_spec(n).to_u64_spec() == n,
{
    lemma2_to64();
    lemma2_to64_rest();
    let x = Scalar::from_int_spec(n);
    if n == 0 {
        assert(x == Scalar { bits: 0 });
        assert(x.significand() == 0);
        assert(0nat / pow2(1074) == 0) by {
            lemma_pow2_pos(1074);
            lemma_basic_div(0, pow2(1074) as int);
        }
    } else {
        lemma_bit_length_bounds(n);
        let len = bit_length(n);
        if len > 53 {
            if len > 54 {
                lemma_pow2_strictly_increases(53, (len - 1) as nat);
            }
        }
        let j = (53 - len) as nat;
        lemma_rounded_short(false, n, 0, j);
        let m = n * pow2(j);
        lemma_parts_of(false, m, -j);
        lemma_pow2_pos(j);
        if j == 0 {
            assert(n * pow2(0) == n) by (nonlinear_arith)
                requires
                    pow2(0) == 1,
            ;
            assert(m * pow2(0) == m) by (nonlinear_arith)
                requires
                    pow2(0) == 1,
            ;
        } else {
            assert(m == pow2(j) * n + 0) by (nonlinear_arith)
                requires
                    m == n * pow2(j),
            ;
            lemma_fundamental_div_mod_converse(m as int, pow2(j) as int, n as int, 0);
        }
    }
}

} // verus!
