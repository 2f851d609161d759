//! Multiplication and addition of scalars, each rounded once from the exact
//! result.
use crate::rounding::{
    lemma_bit_length_unique, nearest_quotient, power_of_two, round, rounded, target_exponent,
    target_magnitude, target_significand,
};
use crate::scalar::{Scalar, HIDDEN_BIT, INFINITY_BITS, MIN_EXPONENT};
use vstd::arithmetic::div_mod::lemma_fundamental_div_mod_converse;
use vstd::arithmetic::power2::{
    lemma2_to64, lemma2_to64_rest, lemma_pow2_adds, lemma_pow2_pos,
    lemma_pow2_strictly_increases, lemma_pow2_unfold, pow2,
};
use vstd::prelude::*;

verus! {

/// The gap between two exponents beyond which the smaller operand of a sum
/// cannot change the larger one.
pub const FAR: i64 = 64;

impl Scalar {
    /// The exact sum of two finite scalars as an integer, counted in units of
    /// `2^e`, where `e` is the smaller of the two exponents.
    pub open spec fn exact_sum(self, other: Scalar) -> int {
        let e = if self.exponent() <= other.exponent() {
            self.exponent()
        } else {
            other.exponent()
        };
        self.signed_significand() * pow2((self.exponent() - e) as nat)
            + other.signed_significand() * pow2((other.exponent() - e) as nat)
    }

    /// `self * other`: a NaN gives the NaN, infinity times zero too, and
    /// every other product is the exact one rounded.
    #[verifier::opaque]
    pub open spec fn mul_spec(self, other: Scalar) -> Scalar {
        let negative = self.negative() != other.negative();
        if self.is_nan() || other.is_nan() {
            Scalar::nan_spec()
        } else if self.is_infinite() || other.is_infinite() {
            if self.is_zero() || other.is_zero() {
                Scalar::nan_spec()
            } else {
                Scalar::compose(negative, INFINITY_BITS)
            }
        } else {
            rounded(
                negative,
                self.significand() * other.significand(),
                self.exponent() + other.exponent(),
            )
        }
    }

    /// `self + other`: a NaN gives the NaN, as do two infinities of opposite
    /// sign; an exact zero is `-0` only when both operands are negative; every
    /// other sum is the exact one rounded.
    #[verifier::opaque]
    pub open spec fn add_spec(self, other: Scalar) -> Scalar {
        if self.is_nan() || other.is_nan() {
            Scalar::nan_spec()
        } else if self.is_infinite() {
            if other.is_infinite() && self.negative() != other.negative() {
                Scalar::nan_spec()
            } else {
                Scalar::compose(self.negative(), INFINITY_BITS)
            }
        } else if other.is_infinite() {
            Scalar::compose(other.negative(), INFINITY_BITS)
        } else {
            let x = self.exact_sum(other);
            let e = if self.exponent() <= other.exponent() {
                self.exponent()
            } else {
                other.exponent()
            };
            if x == 0 {
                Scalar::compose(self.negative() && other.negative(), 0)
            } else if x < 0 {
                rounded(true, (-x) as nat, e)
            } else {
                rounded(false, x as nat, e)
            }
        }
    }

    /// `self - other`, the sum of `self` and the negated `other`.
    pub open spec fn sub_spec(self, other: Scalar) -> Scalar {
        self.add_spec(other.neg_spec())
    }

    pub fn mul(self, other: Scalar) -> (r: Scalar)
        ensures
            r == self.mul_spec(other),
    {
        reveal(Scalar::mul_spec);
        let negative: bool = self.is_sign_negative() != other.is_sign_negative();
        if self.nan() || other.nan() {
            return Scalar::not_a_number();
        }
        if self.infinite() || other.infinite() {
            if self.zero() || other.zero() {
                return Scalar::not_a_number();
            }
            return Scalar::infinity(negative);
        }
        let (ma, ea) = self.parts();
        let (mb, eb) = other.parts();
        assert(ma * mb <= 0x0020_0000_0000_0000 * 0x0020_0000_0000_0000) by (nonlinear_arith)
            requires
                ma <= 0x0020_0000_0000_0000,
                mb <= 0x0020_0000_0000_0000,
        ;
        let product: u128 = (ma as u128) * (mb as u128);
        round(negative, product, ea + eb)
    }

    pub fn add(self, other: Scalar) -> (r: Scalar)
        ensures
            r == self.add_spec(other),
    {
        reveal(Scalar::add_spec);
        if self.nan() || other.nan() {
            return Scalar::not_a_number();
        }
        if self.infinite() {
            if other.infinite() && self.is_sign_negative() != other.is_sign_negative() {
                return Scalar::not_a_number();
            }
            return Scalar::infinity(self.is_sign_negative());
        }
        if other.infinite() {
            return Scalar::infinity(other.is_sign_negative());
        }
        let (ma, ea) = self.parts();
        let (mb, eb) = other.parts();
        if ea >= eb {
            Scalar::add_aligned(self, ma, ea, other, mb, eb)
        } else {
            Scalar::add_aligned(other, mb, eb, self, ma, ea)
        }
    }

    pub fn sub(self, other: Scalar) -> (r: Scalar)
        ensures
            r == self.sub_spec(other),
    {
        self.add(other.neg())
    }

    /// The sum of two finite scalars, the first with the larger exponent.
    fn add_aligned(high: Scalar, mh: u64, eh: i64, low: Scalar, ml: u64, el: i64) -> (r: Scalar)
        requires
            high.is_finite(),
            low.is_finite(),
            mh == high.significand(),
            eh == high.exponent(),
            ml == low.significand(),
            el == low.exponent(),
            eh >= el,
            mh < 2 * HIDDEN_BIT,
            ml < 2 * HIDDEN_BIT,
            MIN_EXPONENT <= el,
            eh <= 971,
            eh > MIN_EXPONENT ==> mh >= HIDDEN_BIT,
            high.magnitude() == (eh - MIN_EXPONENT) * HIDDEN_BIT + mh,
        ensures
            r == high.add_spec(low),
            r == low.add_spec(high),
    {
        reveal(Scalar::add_spec);
        let gap: i64 = eh - el;
        let same: bool = high.is_sign_negative() == low.is_sign_negative();
        proof {
            lemma_exact_sum(high, low);
        }
        if gap > FAR {
            proof {
                lemma_far_sum(
                    mh as nat,
                    ml as nat,
                    gap as nat,
                    el as int,
                    same,
                    high.negative(),
                );
            }
            return Scalar::from_parts(high.is_sign_negative(), high.abs_bits());
        }
        let p: u128 = power_of_two(gap as u32);
        proof {
            lemma2_to64_rest();
            if gap < 64 {
                lemma_pow2_strictly_increases(gap as nat, 64);
            }
            assert(mh * p <= 0x0020_0000_0000_0000 * 0x1_0000_0000_0000_0000) by (nonlinear_arith)
                requires
                    mh <= 0x0020_0000_0000_0000,
                    p <= 0x1_0000_0000_0000_0000,
            ;
        }
        let big: u128 = (mh as u128) * p;
        let small: u128 = ml as u128;
        if same {
            round(high.is_sign_negative(), big + small, el)
        } else if big > small {
            round(high.is_sign_negative(), big - small, el)
        } else if big < small {
            round(low.is_sign_negative(), small - big, el)
        } else {
            Scalar::signed_zero(false)
        }
    }
}

/// The exact sum of two finite scalars, the first with the larger exponent:
/// its absolute value is the sum or the difference of the two significands,
/// the first scaled by the gap between the exponents.
pub proof fn lemma_exact_sum(high: Scalar, low: Scalar)
    requires
        high.exponent() >= low.exponent(),
    ensures
        high.exact_sum(low) == low.exact_sum(high),
        high.exact_sum(low) == high.signed_significand() * pow2(
            (high.exponent() - low.exponent()) as nat,
        ) + low.signed_significand(),
        high.negative() ==> high.signed_significand() * pow2(
            (high.exponent() - low.exponent()) as nat,
        ) == -(high.significand() * pow2((high.exponent() - low.exponent()) as nat)),
{
    lemma2_to64();
    let gap = (high.exponent() - low.exponent()) as nat;
    let p = pow2(gap);
    let h = high.signed_significand();
    let l = low.signed_significand();
    assert(l * pow2(0) == l) by (nonlinear_arith)
        requires
            pow2(0) == 1,
    ;
    assert(high.exact_sum(low) == h * p + l * pow2(0));
    if gap == 0 {
        assert(h * pow2(0) == h) by (nonlinear_arith)
            requires
                pow2(0) == 1,
        ;
    }
    assert(low.exact_sum(high) == l * pow2(0) + h * p);
    let m = high.significand();
    assert((-m) * p == -(m * p)) by (nonlinear_arith);
}

/// Far below a normal significand nothing changes the rounding: for
/// `2^52 <= m < 2^53`, `t < 2^53` and a gap of at least 55 bits, `m · 2^gap ± t`
/// at exponent `e` rounds to the scalar `m · 2^(e + gap)`.
pub proof fn lemma_far_sum(m: nat, t: nat, gap: nat, e: int, same: bool, negative: bool)
    requires
        HIDDEN_BIT <= m < 2 * HIDDEN_BIT,
        t < 2 * HIDDEN_BIT,
        gap >= 55,
        MIN_EXPONENT <= e,
        e + gap <= 971,
    ensures
        m * pow2(gap) > t,
        rounded(
            negative,
            (if same {
                (m * pow2(gap) + t) as int
            } else {
                m * pow2(gap) - t
            }) as nat,
            e,
        ) == Scalar::compose(negative, ((e + gap - MIN_EXPONENT) * HIDDEN_BIT + m) as u64),
{
    lemma2_to64();
    lemma2_to64_rest();
    let p = pow2(gap);
    lemma_pow2_pos(gap);
    if gap > 55 {
        lemma_pow2_strictly_increases(55, gap);
    }
    assert(pow2(55) == 0x0080_0000_0000_0000) by {
        lemma_pow2_adds(32, 23);
    }
    lemma_pow2_adds(52, gap);
    lemma_pow2_adds(53, gap);
    assert(pow2(52) == HIDDEN_BIT);
    assert(pow2(53) == 2 * HIDDEN_BIT);
    assert(m * p >= pow2(52) * p) by (nonlinear_arith)
        requires
            m >= pow2(52),
            p > 0,
    ;
    assert(m * p + p <= pow2(53) * p) by (nonlinear_arith)
        requires
            m + 1 <= pow2(53),
            p > 0,
    ;
    assert(pow2(52) * p >= p) by (nonlinear_arith)
        requires
            pow2(52) >= 1,
            p > 0,
    ;
    let target = (e + gap - MIN_EXPONENT) * HIDDEN_BIT + m;
    assert(0 <= target < INFINITY_BITS) by (nonlinear_arith)
        requires
            target == (e + gap - MIN_EXPONENT) * HIDDEN_BIT + m,
            0 <= e + gap - MIN_EXPONENT <= 2045,
            HIDDEN_BIT <= m < 2 * HIDDEN_BIT,
            HIDDEN_BIT == 0x0010_0000_0000_0000,
            INFINITY_BITS == 0x7FF0_0000_0000_0000,
    ;
    if same || t == 0 {
        let n = (m * p + t) as nat;
        lemma_bit_length_unique(n, 53 + gap);
        lemma_fundamental_div_mod_converse(n as int, p as int, m as int, t as int);
        assert(target_exponent(n, e) == e + gap);
        assert(nearest_quotient(n, p) == m);
        assert(target_significand(n, e) == m);
        assert(target_magnitude(n, e) == target);
    } else if m > HIDDEN_BIT {
        let n = (m * p - t) as nat;
        assert(n == (m - 1) * p + (p - t)) by (nonlinear_arith)
            requires
                n == m * p - t,
        ;
        assert((m - 1) * p >= pow2(52) * p) by (nonlinear_arith)
            requires
                m - 1 >= pow2(52),
                p > 0,
        ;
        lemma_bit_length_unique(n, 53 + gap);
        lemma_fundamental_div_mod_converse(n as int, p as int, m - 1, p - t);
        assert(target_exponent(n, e) == e + gap);
        assert(nearest_quotient(n, p) == m);
        assert(target_significand(n, e) == m);
        assert(target_magnitude(n, e) == target);
    } else {
        let n = (m * p - t) as nat;
        let half = pow2((gap - 1) as nat);
        lemma_pow2_unfold(gap);
        assert(p == 2 * half);
        lemma_pow2_adds(51, gap);
        lemma_pow2_adds(53, (gap - 1) as nat);
        lemma_pow2_adds(52, (gap - 1) as nat);
        if gap - 1 > 54 {
            lemma_pow2_strictly_increases(54, (gap - 1) as nat);
        }
        assert(pow2(54) == 0x0040_0000_0000_0000) by {
            lemma_pow2_adds(32, 22);
        }
        assert(half >= pow2(54));
        assert(pow2(51) == 0x0008_0000_0000_0000) by {
            lemma_pow2_adds(32, 19);
        }
        assert(pow2(51 + gap) == pow2(52 + (gap - 1) as nat));
        assert(n == (2 * HIDDEN_BIT - 1) * half + (half - t)) by (nonlinear_arith)
            requires
                n == m * p - t,
                m == HIDDEN_BIT,
                p == 2 * half,
        ;
        assert(pow2(52) * half == pow2(51) * p) by (nonlinear_arith)
            requires
                p == 2 * half,
                pow2(52) == 2 * pow2(51),
        ;
        assert(n >= pow2(51 + gap)) by (nonlinear_arith)
            requires
                n == (2 * HIDDEN_BIT - 1) * half + (half - t),
                pow2(51 + gap) == HIDDEN_BIT * half,
                half > t,
                HIDDEN_BIT >= 1,
        ;
        lemma_bit_length_unique(n, 52 + gap);
        lemma_fundamental_div_mod_converse(
            n as int,
            half as int,
            2 * HIDDEN_BIT - 1,
            half - t,
        );
        assert(target_exponent(n, e) == e + gap - 1);
        assert(nearest_quotient(n, half) == 2 * HIDDEN_BIT);
        assert(target_significand(n, e) == 2 * HIDDEN_BIT);
        assert(target_magnitude(n, e) == target) by (nonlinear_arith)
            requires
                target_magnitude(n, e) == (e + gap - 1 - MIN_EXPONENT) * HIDDEN_BIT + 2
                    * HIDDEN_BIT,
                target == (e + gap - MIN_EXPONENT) * HIDDEN_BIT + m,
                m == HIDDEN_BIT,
        ;
    }
}

} // verus!
