//! Random scalars drawn from a small fast generator.
use crate::exact::{lemma_parts_of, lemma_rounded_exact, lemma_rounded_short};
use crate::rounding::{bit_length, lemma_bit_length_bounds};
use crate::scalar::{Scalar, HIDDEN_BIT, MIN_EXPONENT};
use vstd::arithmetic::power2::{lemma2_to64, lemma2_to64_rest, lemma_pow2_strictly_increases, pow2};
use vstd::prelude::*;

verus! {

/// The generator `rand::rngs::SmallRng`. Nothing of its state is known
/// here; it is handed on to `next_word`.
#[verifier::external_type_specification]
#[verifier::external_body]
pub struct ExSmallRng(rand::rngs::SmallRng);

/// The encoding of `2^-53`, the step between two scalars that `unit_scalar`
/// can give.
pub const UNIT_STEP_BITS: u64 = 0x3CA0_0000_0000_0000;

/// The encoding of `-1.0`.
pub const MINUS_ONE_BITS: u64 = 0xBFF0_0000_0000_0000;

/// The next 64 bits of the generator, by `RngCore::next_u64`. Nothing is
/// claimed of them: they are whatever the generator gives.
#[verifier::external_body]
pub(crate) fn next_word(rng: &mut rand::rngs::SmallRng) -> (word: u64) {
    rand::RngCore::next_u64(rng)
}

/// The scalar in `[0, 1)` that 64 random bits stand for: the upper
/// fifty-three bits, as an integer, times `2^-53`. This is how the standard
/// distribution of `rand` makes a binary64 number of one word of a
/// generator.
pub open spec fn unit_scalar_spec(word: u64) -> Scalar {
    Scalar::from_int_spec((word / 2048) as nat).mul_spec(Scalar { bits: UNIT_STEP_BITS })
}

/// `min + (max - min) · unit`.
pub open spec fn between_spec(min: Scalar, max: Scalar, unit: Scalar) -> Scalar {
    min.add_spec(max.sub_spec(min).mul_spec(unit))
}

/// Every unit scalar lies in `[0, 1)`.
pub proof fn lemma_unit_scalar_range(word: u64)
    ensures
        (Scalar { bits: 0 }).le_spec(unit_scalar_spec(word)),
        unit_scalar_spec(word).lt_spec(Scalar::one_spec()),
{
    reveal(Scalar::mul_spec);
    lemma2_to64();
    lemma2_to64_rest();
    let v = (word / 2048) as nat;
    let step = Scalar { bits: UNIT_STEP_BITS };
    let h = HIDDEN_BIT as int;
    assert(step.magnitude() == 970 * h);
    assert(step.exponent_field() == 970);
    assert(step.fraction() == 0);
    assert(step.significand() == h);
    assert(step.exponent() == -105);
    let y = Scalar::from_int_spec(v);
    if v == 0 {
        assert(y == Scalar { bits: 0 });
        assert(y.significand() == 0);
        assert(y.significand() * step.significand() == 0) by (nonlinear_arith)
            requires
                y.significand() == 0,
        ;
    } else {
        lemma_bit_length_bounds(v);
        let len = bit_length(v);
        if len > 53 {
            if len > 54 {
                lemma_pow2_strictly_increases(53, (len - 1) as nat);
            }
        }
        let j = (53 - len) as nat;
        lemma_rounded_short(false, v, 0, j);
        let m = v * pow2(j);
        lemma_parts_of(false, m, -j);
        assert(y.significand() == m);
        assert(y.exponent() == -j);
        lemma_rounded_exact(false, m, -j - 53, 52);
        lemma_parts_of(false, m, -j - 53);
        assert(m * pow2(52) == y.significand() * step.significand());
        let z = y.mul_spec(step);
        assert(z.magnitude() == (-j - 53 - MIN_EXPONENT) * h + m);
        assert((-j - 53 - MIN_EXPONENT) * h + m < 1023 * h) by (nonlinear_arith)
            requires
                m < 2 * h,
                j >= 0,
                MIN_EXPONENT == -1074,
                h > 0,
        ;
    }
}

pub fn unit_scalar(word: u64) -> (r: Scalar)
    ensures
        r == unit_scalar_spec(word),
        (Scalar { bits: 0 }).le_spec(r),
        r.lt_spec(Scalar::one_spec()),
{
    proof {
        lemma_unit_scalar_range(word);
    }
    Scalar::from_u64(word / 2048).mul(Scalar { bits: UNIT_STEP_BITS })
}

/// The point of `[min, max]` that lies at the fraction `unit` of the way.
pub fn between(min: Scalar, max: Scalar, unit: Scalar) -> (r: Scalar)
    ensures
        r == between_spec(min, max, unit),
{
    min.add(max.sub(min).mul(unit))
}

/// A scalar drawn evenly from `[0, 1)`.
pub fn random_unit(rng: &mut rand::rngs::SmallRng) -> (r: Scalar)
    ensures
        exists|word: u64| r == unit_scalar_spec(word),
        (Scalar { bits: 0 }).le_spec(r),
        r.lt_spec(Scalar::one_spec()),
{
    let word: u64 = next_word(rng);
    unit_scalar(word)
}

/// A scalar drawn evenly from `min` to `max`.
pub fn random_between(rng: &mut rand::rngs::SmallRng, min: Scalar, max: Scalar) -> (r: Scalar)
    ensures
        exists|word: u64| r == between_spec(min, max, unit_scalar_spec(word)),
{
    let word: u64 = next_word(rng);
    between(min, max, unit_scalar(word))
}

} // verus!
