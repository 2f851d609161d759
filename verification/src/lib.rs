//! A path tracer whose every number is a binary64 scalar computed in integer
//! arithmetic.
//!
//! `scalar`, `rounding`, `arith`, `division` and `convert` hold the numbers:
//! their encoding, the one rounding that every operation ends with, and the
//! operations. `exact` and `order` hold what is known of them: which
//! results need no rounding, how signs pass through, and that rounding
//! keeps the order of the values. `vec3`, `ray` and
//! `consts` build vectors, rays and intervals of them. `hittable` and
//! `material` hold the scene: shapes, the nearest hit of a ray, and the
//! surfaces that send a ray on. `camera` makes the rays, follows them and
//! writes the image; `image` and `text` write numbers and rasters as text;
//! `random` draws the scalars that sampling needs.
use crate::consts::PI;
use crate::exact::{
    lemma_add_commutes, lemma_add_zero, lemma_mul_one, lemma_mul_zero, lemma_one_parts,
    lemma_sub_self,
};
use crate::scalar::Scalar;
use crate::vec3::Color;
use vstd::prelude::*;

pub mod arith;
pub mod camera;
pub mod consts;
pub mod convert;
pub mod division;
pub mod exact;
pub mod hittable;
pub mod image;
pub mod material;
pub mod order;
pub mod random;
pub mod ray;
pub mod rounding;
pub mod scalar;
pub mod text;
pub mod vec3;

verus! {

/// The encoding of `180.0`.
pub const HALF_TURN_BITS: u64 = 0x4066_8000_0000_0000;

/// `(1 - t)·start_value + t·end_value`.
pub open spec fn lerp_spec(t: Scalar, start_value: Color, end_value: Color) -> Color {
    start_value.scale_spec(Scalar::one_spec().sub_spec(t)).add_spec(end_value.scale_spec(t))
}

/// `degrees · pi / 180`.
pub open spec fn degrees_to_radians_spec(degrees: Scalar) -> Scalar {
    degrees.mul_spec(Scalar { bits: PI }).div_spec(Scalar { bits: HALF_TURN_BITS })
}

/// One minus zero is one.
pub proof fn lemma_one_minus_zero()
    ensures
        Scalar::one_spec().sub_spec(Scalar { bits: 0 }) == Scalar::one_spec(),
{
    let zero = Scalar { bits: 0 };
    lemma_one_parts();
    lemma_add_zero(Scalar::one_spec(), zero.neg_spec());
}

/// The way between two colours starts at the first: at the fraction zero,
/// where both colours have neither NaN nor infinity, `lerp` gives the
/// first.
pub proof fn lemma_lerp_starts(start_value: Color, end_value: Color)
    requires
        start_value.is_finite(),
        end_value.is_finite(),
    ensures
        lerp_spec(Scalar { bits: 0 }, start_value, end_value).matches_spec(start_value),
{
    let zero = Scalar { bits: 0 };
    let one = Scalar::one_spec();
    lemma_one_minus_zero();
    lemma_mul_one(start_value.x);
    lemma_mul_one(start_value.y);
    lemma_mul_one(start_value.z);
    lemma_mul_zero(end_value.x, zero);
    lemma_mul_zero(end_value.y, zero);
    lemma_mul_zero(end_value.z, zero);
    lemma_add_zero(start_value.x, end_value.x.mul_spec(zero));
    lemma_add_zero(start_value.y, end_value.y.mul_spec(zero));
    lemma_add_zero(start_value.z, end_value.z.mul_spec(zero));
}

/// The way between two colours ends at the second: at the fraction one,
/// where both colours have neither NaN nor infinity, `lerp` gives the
/// second.
pub proof fn lemma_lerp_ends(start_value: Color, end_value: Color)
    requires
        start_value.is_finite(),
        end_value.is_finite(),
    ensures
        lerp_spec(Scalar::one_spec(), start_value, end_value).matches_spec(end_value),
{
    let zero = Scalar { bits: 0 };
    let one = Scalar::one_spec();
    lemma_one_parts();
    lemma_sub_self(one);
    lemma_mul_one(end_value.x);
    lemma_mul_one(end_value.y);
    lemma_mul_one(end_value.z);
    lemma_mul_zero(start_value.x, zero);
    lemma_mul_zero(start_value.y, zero);
    lemma_mul_zero(start_value.z, zero);
    lemma_add_zero(end_value.x, start_value.x.mul_spec(zero));
    lemma_add_zero(end_value.y, start_value.y.mul_spec(zero));
    lemma_add_zero(end_value.z, start_value.z.mul_spec(zero));
    lemma_add_commutes(end_value.x, start_value.x.mul_spec(zero));
    lemma_add_commutes(end_value.y, start_value.y.mul_spec(zero));
    lemma_add_commutes(end_value.z, start_value.z.mul_spec(zero));
}

/// The colour at the fraction `t` of the way from `start_value` to
/// `end_value`.
pub fn lerp(t: Scalar, start_value: Color, end_value: Color) -> (r: Color)
    ensures
        r == lerp_spec(t, start_value, end_value),
{
    start_value.scale(Scalar::one().sub(t)).add(&end_value.scale(t))
}

pub fn degrees_to_radians(degrees: Scalar) -> (r: Scalar)
    ensures
        r == degrees_to_radians_spec(degrees),
{
    degrees.mul(Scalar::from_bits(PI)).div(Scalar::from_bits(HALF_TURN_BITS))
}

/// Gamma 2: the square root of a linear channel.
pub fn linear_space_to_gamma_space(linear_component: Scalar) -> (r: Scalar)
    ensures
        r == linear_component.sqrt_spec(),
{
    linear_component.sqrt()
}

} // verus!
