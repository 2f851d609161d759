//! Vectors of three scalars: points, directions and colours.
use crate::convert::{ONE_BITS, TWO_BITS};
use crate::order::{
    lemma_add_value_congruent, lemma_mul_unit, lemma_mul_value_congruent, lemma_square,
    lemma_sub_double,
};
use crate::exact::{
    lemma_add_neg_both, lemma_add_zero, lemma_mul_commutes, lemma_mul_neg, lemma_mul_zero,
    lemma_nan_spreads, lemma_neg_parts, lemma_zero_plus,
};
use crate::random::{
    between, between_spec, next_word, unit_scalar, unit_scalar_spec, MINUS_ONE_BITS,
};
use crate::scalar::Scalar;
use vstd::arithmetic::power2::pow2;
use vstd::prelude::*;

verus! {

pub type Color = Vec3;

pub type Point3 = Vec3;

/// The encoding of `1e-8`, the bound below which a component counts as zero.
pub const NEAR_ZERO_BITS: u64 = 0x3E45_798E_E230_8C3A;

/// The number of points that `random_in_unit_sphere` draws at most.
pub const REJECTION_LIMIT: u32 = 128;

#[derive(Clone, Copy, Debug)]
pub struct Vec3 {
    pub x: Scalar,
    pub y: Scalar,
    pub z: Scalar,
}

impl Vec3 {
    pub open spec fn zeroed_spec() -> Vec3 {
        Vec3 { x: Scalar { bits: 0 }, y: Scalar { bits: 0 }, z: Scalar { bits: 0 } }
    }

    pub open spec fn neg_spec(self) -> Vec3 {
        Vec3 { x: self.x.neg_spec(), y: self.y.neg_spec(), z: self.z.neg_spec() }
    }

    pub open spec fn add_spec(self, other: Vec3) -> Vec3 {
        Vec3 {
            x: self.x.add_spec(other.x),
            y: self.y.add_spec(other.y),
            z: self.z.add_spec(other.z),
        }
    }

    pub open spec fn sub_spec(self, other: Vec3) -> Vec3 {
        Vec3 {
            x: self.x.sub_spec(other.x),
            y: self.y.sub_spec(other.y),
            z: self.z.sub_spec(other.z),
        }
    }

    /// The product component by component.
    pub open spec fn mul_spec(self, other: Vec3) -> Vec3 {
        Vec3 {
            x: self.x.mul_spec(other.x),
            y: self.y.mul_spec(other.y),
            z: self.z.mul_spec(other.z),
        }
    }

    /// Each component times `factor`.
    pub open spec fn scale_spec(self, factor: Scalar) -> Vec3 {
        Vec3 {
            x: self.x.mul_spec(factor),
            y: self.y.mul_spec(factor),
            z: self.z.mul_spec(factor),
        }
    }

    /// Each component times the inverse of `divisor`.
    pub open spec fn div_spec(self, divisor: Scalar) -> Vec3 {
        self.scale_spec(Scalar::one_spec().div_spec(divisor))
    }

    pub open spec fn dot_spec(self, other: Vec3) -> Scalar {
        self.x.mul_spec(other.x).add_spec(self.y.mul_spec(other.y)).add_spec(
            self.z.mul_spec(other.z),
        )
    }

    pub open spec fn length_squared_spec(self) -> Scalar {
        self.dot_spec(self)
    }

    pub open spec fn length_spec(self) -> Scalar {
        self.length_squared_spec().sqrt_spec()
    }

    pub open spec fn cross_spec(self, other: Vec3) -> Vec3 {
        Vec3 {
            x: self.y.mul_spec(other.z).sub_spec(self.z.mul_spec(other.y)),
            y: self.z.mul_spec(other.x).sub_spec(self.x.mul_spec(other.z)),
            z: self.x.mul_spec(other.y).sub_spec(self.y.mul_spec(other.x)),
        }
    }

    /// The vector divided by its length.
    pub open spec fn unit_vector_spec(self) -> Vec3 {
        self.div_spec(self.length_spec())
    }

    /// Every component is closer to zero than `1e-8`.
    pub open spec fn near_zero_spec(self) -> bool {
        let s = Scalar { bits: NEAR_ZERO_BITS };
        self.x.abs_spec().lt_spec(s) && self.y.abs_spec().lt_spec(s) && self.z.abs_spec().lt_spec(
            s,
        )
    }

    /// `v - 2·dot(v, n)·n`.
    pub open spec fn reflect_spec(v: Vec3, n: Vec3) -> Vec3 {
        v.sub_spec(n.scale_spec(Scalar { bits: TWO_BITS }.mul_spec(v.dot_spec(n))))
    }

    /// The part of the refracted ray that is perpendicular to the normal.
    pub open spec fn refract_perpendicular(uv: Vec3, n: Vec3, etai_over_etat: Scalar) -> Vec3 {
        let cos_theta = uv.neg_spec().dot_spec(n).min_spec(Scalar::one_spec());
        uv.add_spec(n.scale_spec(cos_theta)).scale_spec(etai_over_etat)
    }

    /// The part of the refracted ray that is parallel to the normal.
    pub open spec fn refract_parallel(perpendicular: Vec3, n: Vec3) -> Vec3 {
        n.scale_spec(
            Scalar::one_spec().sub_spec(
                perpendicular.length_squared_spec(),
            ).abs_spec().sqrt_spec().neg_spec(),
        )
    }

    /// Snell's law for a unit vector `uv` that meets a surface with unit
    /// normal `n`, the normal facing against it.
    pub open spec fn refract_spec(uv: Vec3, n: Vec3, etai_over_etat: Scalar) -> Vec3 {
        let perpendicular = Vec3::refract_perpendicular(uv, n, etai_over_etat);
        perpendicular.add_spec(Vec3::refract_parallel(perpendicular, n))
    }

    /// The component at `index`: the first at 0, the second at 1, else the
    /// third.
    pub open spec fn component(self, index: int) -> Scalar {
        if index == 0 {
            self.x
        } else if index == 1 {
            self.y
        } else {
            self.z
        }
    }

    /// The vector is one of the six unit vectors along the axes: its
    /// component at `axis` is one or minus one, the others are zeros.
    pub open spec fn along_axis(self, axis: int) -> bool {
        &&& 0 <= axis < 3
        &&& self.component(axis).magnitude() == ONE_BITS
        &&& axis != 0 ==> self.x.is_zero()
        &&& axis != 1 ==> self.y.is_zero()
        &&& axis != 2 ==> self.z.is_zero()
    }

    /// Every component is a zero.
    pub open spec fn is_zero_vector(self) -> bool {
        self.x.is_zero() && self.y.is_zero() && self.z.is_zero()
    }

    /// No component is a NaN or an infinity.
    pub open spec fn is_finite(self) -> bool {
        self.x.is_finite() && self.y.is_finite() && self.z.is_finite()
    }

    /// The components are equal one by one, as binary64 defines equality
    /// for those that are no NaN; a NaN in `other` is matched by anything.
    pub open spec fn matches_spec(self, other: Vec3) -> bool {
        &&& !other.x.is_nan() ==> self.x.eq_spec(other.x)
        &&& !other.y.is_nan() ==> self.y.eq_spec(other.y)
        &&& !other.z.is_nan() ==> self.z.eq_spec(other.z)
    }

    /// The vector lies strictly inside the ball of radius one.
    pub open spec fn in_unit_sphere(self) -> bool {
        self.length_squared_spec().lt_spec(Scalar::one_spec())
    }

    /// The vector whose components lie at the fractions that three random
    /// words stand for, each between `min` and `max`.
    pub open spec fn between_words(min: Scalar, max: Scalar, words: (u64, u64, u64)) -> Vec3 {
        Vec3 {
            x: between_spec(min, max, unit_scalar_spec(words.0)),
            y: between_spec(min, max, unit_scalar_spec(words.1)),
            z: between_spec(min, max, unit_scalar_spec(words.2)),
        }
    }

    /// `v` when it lies on the side of `normal`, else `-v`.
    pub open spec fn toward_spec(normal: Vec3, v: Vec3) -> Vec3 {
        if (Scalar { bits: 0 }).lt_spec(normal.dot_spec(v)) {
            v
        } else {
            v.neg_spec()
        }
    }

    /// A vector with each component drawn evenly from `[0, 1)`.
    pub fn random(rng: &mut rand::rngs::SmallRng) -> (r: Vec3)
        ensures
            exists|words: (u64, u64, u64)|
                r == (Vec3 {
                    x: unit_scalar_spec(words.0),
                    y: unit_scalar_spec(words.1),
                    z: unit_scalar_spec(words.2),
                }),
    {
        let a: u64 = next_word(rng);
        let b: u64 = next_word(rng);
        let c: u64 = next_word(rng);
        let r: Vec3 = Vec3 { x: unit_scalar(a), y: unit_scalar(b), z: unit_scalar(c) };
        proof {
            let words = (a, b, c);
            assert(r == (Vec3 {
                x: unit_scalar_spec(words.0),
                y: unit_scalar_spec(words.1),
                z: unit_scalar_spec(words.2),
            }));
        }
        r
    }

    /// A vector with each component drawn evenly from `min` to `max`.
    pub fn random_between(rng: &mut rand::rngs::SmallRng, min: Scalar, max: Scalar) -> (r: Vec3)
        ensures
            exists|words: (u64, u64, u64)| r == Vec3::between_words(min, max, words),
    {
        let a: u64 = next_word(rng);
        let b: u64 = next_word(rng);
        let c: u64 = next_word(rng);
        let r: Vec3 = Vec3 {
            x: between(min, max, unit_scalar(a)),
            y: between(min, max, unit_scalar(b)),
            z: between(min, max, unit_scalar(c)),
        };
        proof {
            assert(r == Vec3::between_words(min, max, (a, b, c)));
        }
        r
    }

    /// Whether a point drawn from the cube `[-1, 1)^3` is kept: it must lie
    /// strictly inside the ball of radius one.
    pub fn accepts(&self) -> (r: bool)
        ensures
            r == self.in_unit_sphere(),
    {
        self.length_squared().lt(Scalar::one())
    }

    /// A point drawn evenly from the inside of the unit ball: points of the
    /// cube `[-1, 1)^3` are drawn until one lies in the ball. After
    /// `REJECTION_LIMIT` points outside it the centre is returned.
    pub fn random_in_unit_sphere(rng: &mut rand::rngs::SmallRng) -> (r: Vec3)
        ensures
            r.in_unit_sphere(),
            r == Vec3::zeroed_spec() || exists|words: (u64, u64, u64)|
                r == Vec3::between_words(
                    Scalar { bits: MINUS_ONE_BITS },
                    Scalar::one_spec(),
                    words,
                ),
    {
        let mut tries: u32 = 0;
        while tries < REJECTION_LIMIT
            invariant
                tries <= REJECTION_LIMIT,
            decreases REJECTION_LIMIT - tries,
        {
            let point: Vec3 = Vec3::random_between(
                rng,
                Scalar { bits: MINUS_ONE_BITS },
                Scalar::one(),
            );
            if point.accepts() {
                return point;
            }
            tries = tries + 1;
        }
        proof {
            lemma_centre_in_unit_sphere();
        }
        Vec3::zeroed()
    }

    /// A direction drawn evenly from the unit sphere: a point of the unit
    /// ball, divided by its length.
    pub fn random_unit_vector(rng: &mut rand::rngs::SmallRng) -> (r: Vec3)
        ensures
            exists|point: Vec3| point.in_unit_sphere() && r == point.unit_vector_spec(),
    {
        let point: Vec3 = Vec3::random_in_unit_sphere(rng);
        point.unit_vector()
    }

    /// `v` turned to the side of `normal`.
    pub fn toward(normal: &Vec3, v: Vec3) -> (r: Vec3)
        ensures
            r == Vec3::toward_spec(*normal, v),
    {
        if normal.dot(&v).gt(Scalar { bits: 0 }) {
            v
        } else {
            v.neg()
        }
    }

    /// A direction drawn evenly from the half of the unit sphere on the side
    /// of `normal`.
    pub fn random_on_hemisphere(normal: &Vec3, rng: &mut rand::rngs::SmallRng) -> (r: Vec3)
        ensures
            exists|point: Vec3|
                point.in_unit_sphere() && r == Vec3::toward_spec(
                    *normal,
                    point.unit_vector_spec(),
                ),
    {
        let on_sphere: Vec3 = Vec3::random_unit_vector(rng);
        Vec3::toward(normal, on_sphere)
    }

    pub fn new(x: Scalar, y: Scalar, z: Scalar) -> (r: Vec3)
        ensures
            r == (Vec3 { x, y, z }),
    {
        Vec3 { x, y, z }
    }

    pub fn zeroed() -> (r: Vec3)
        ensures
            r == Vec3::zeroed_spec(),
    {
        Vec3 { x: Scalar { bits: 0 }, y: Scalar { bits: 0 }, z: Scalar { bits: 0 } }
    }

    pub fn x(&self) -> (r: Scalar)
        ensures
            r == self.x,
    {
        self.x
    }

    pub fn y(&self) -> (r: Scalar)
        ensures
            r == self.y,
    {
        self.y
    }

    pub fn z(&self) -> (r: Scalar)
        ensures
            r == self.z,
    {
        self.z
    }

    /// The component at `index`: 0, 1 or 2.
    pub fn index(&self, index: usize) -> (r: Scalar)
        requires
            index < 3,
        ensures
            r == self.component(index as int),
    {
        if index == 0 {
            self.x
        } else if index == 1 {
            self.y
        } else {
            self.z
        }
    }

    pub fn neg(&self) -> (r: Vec3)
        ensures
            r == self.neg_spec(),
    {
        Vec3 { x: self.x.neg(), y: self.y.neg(), z: self.z.neg() }
    }

    pub fn add(&self, rhs: &Vec3) -> (r: Vec3)
        ensures
            r == self.add_spec(*rhs),
    {
        Vec3 { x: self.x.add(rhs.x), y: self.y.add(rhs.y), z: self.z.add(rhs.z) }
    }

    pub fn sub(&self, rhs: &Vec3) -> (r: Vec3)
        ensures
            r == self.sub_spec(*rhs),
    {
        Vec3 { x: self.x.sub(rhs.x), y: self.y.sub(rhs.y), z: self.z.sub(rhs.z) }
    }

    pub fn mul(&self, rhs: &Vec3) -> (r: Vec3)
        ensures
            r == self.mul_spec(*rhs),
    {
        Vec3 { x: self.x.mul(rhs.x), y: self.y.mul(rhs.y), z: self.z.mul(rhs.z) }
    }

    pub fn scale(&self, factor: Scalar) -> (r: Vec3)
        ensures
            r == self.scale_spec(factor),
    {
        Vec3 { x: self.x.mul(factor), y: self.y.mul(factor), z: self.z.mul(factor) }
    }

    pub fn div(&self, divisor: Scalar) -> (r: Vec3)
        ensures
            r == self.div_spec(divisor),
    {
        self.scale(Scalar::one().div(divisor))
    }

    pub fn add_assign(&mut self, rhs: Vec3)
        ensures
            *final(self) == old(self).add_spec(rhs),
    {
        let sum: Vec3 = self.add(&rhs);
        *self = sum;
    }

    pub fn mul_assign(&mut self, rhs: Scalar)
        ensures
            *final(self) == old(self).scale_spec(rhs),
    {
        let product: Vec3 = self.scale(rhs);
        *self = product;
    }

    pub fn div_assign(&mut self, rhs: Scalar)
        ensures
            *final(self) == old(self).div_spec(rhs),
    {
        let quotient: Vec3 = self.div(rhs);
        *self = quotient;
    }

    pub fn dot(&self, other: &Vec3) -> (r: Scalar)
        ensures
            r == self.dot_spec(*other),
    {
        self.x.mul(other.x).add(self.y.mul(other.y)).add(self.z.mul(other.z))
    }

    pub fn length_squared(&self) -> (r: Scalar)
        ensures
            r == self.length_squared_spec(),
    {
        self.dot(self)
    }

    pub fn length(&self) -> (r: Scalar)
        ensures
            r == self.length_spec(),
    {
        self.length_squared().sqrt()
    }

    pub fn cross(&self, other: &Vec3) -> (r: Vec3)
        ensures
            r == self.cross_spec(*other),
    {
        Vec3 {
            x: self.y.mul(other.z).sub(self.z.mul(other.y)),
            y: self.z.mul(other.x).sub(self.x.mul(other.z)),
            z: self.x.mul(other.y).sub(self.y.mul(other.x)),
        }
    }

    pub fn unit_vector(&self) -> (r: Vec3)
        ensures
            r == self.unit_vector_spec(),
    {
        self.div(self.length())
    }

    pub fn near_zero(&self) -> (r: bool)
        ensures
            r == self.near_zero_spec(),
    {
        let s: Scalar = Scalar { bits: NEAR_ZERO_BITS };
        self.x.abs().lt(s) && self.y.abs().lt(s) && self.z.abs().lt(s)
    }

    pub fn reflect(v: &Vec3, n: &Vec3) -> (r: Vec3)
        ensures
            r == Vec3::reflect_spec(*v, *n),
    {
        v.sub(&n.scale(Scalar::two().mul(v.dot(n))))
    }

    pub fn refract(uv: &Vec3, n: &Vec3, etai_over_etat: Scalar) -> (r: Vec3)
        ensures
            r == Vec3::refract_spec(*uv, *n, etai_over_etat),
    {
        let cos_theta: Scalar = uv.neg().dot(n).min(Scalar::one());
        let perpendicular: Vec3 = uv.add(&n.scale(cos_theta)).scale(etai_over_etat);
        let parallel: Vec3 = n.scale(
            Scalar::one().sub(perpendicular.length_squared()).abs().sqrt().neg(),
        );
        perpendicular.add(&parallel)
    }
}

/// Turning one of two vectors round turns the sign of their dot product:
/// where the product is no NaN, the product with the negated vector is none
/// either and has the negated value.
pub proof fn lemma_dot_neg(d: Vec3, n: Vec3)
    requires
        !d.dot_spec(n).is_nan(),
    ensures
        !d.dot_spec(n.neg_spec()).is_nan(),
        d.dot_spec(n.neg_spec()).rank() == -d.dot_spec(n).rank(),
{
    let p1 = d.x.mul_spec(n.x);
    let p2 = d.y.mul_spec(n.y);
    let p3 = d.z.mul_spec(n.z);
    let s = p1.add_spec(p2);
    if s.is_nan() || p3.is_nan() {
        lemma_nan_spreads(s, p3);
    }
    if p1.is_nan() || p2.is_nan() {
        lemma_nan_spreads(p1, p2);
    }
    lemma_mul_neg(d.x, n.x);
    lemma_mul_neg(d.y, n.y);
    lemma_mul_neg(d.z, n.z);
    lemma_add_neg_both(p1, p2);
    let t = p1.neg_spec().add_spec(p2.neg_spec());
    lemma_neg_parts(p3);
    lemma_neg_parts(s);
    if s.is_zero() {
        lemma_zero_plus(s, p3);
        lemma_zero_plus(t, p3.neg_spec());
    } else {
        lemma_add_neg_both(s, p3);
    }
}

/// A vector that lies in the surface is its own mirror image: where the
/// dot product with the normal is zero, the normal has neither NaN nor
/// infinity and the vector no NaN, `reflect` gives the vector.
pub proof fn lemma_reflect_tangent(v: Vec3, n: Vec3)
    requires
        v.dot_spec(n).is_zero(),
        n.is_finite(),
        !v.x.is_nan() && !v.y.is_nan() && !v.z.is_nan(),
    ensures
        Vec3::reflect_spec(v, n).matches_spec(v),
{
    let two = Scalar { bits: TWO_BITS };
    let h = crate::scalar::HIDDEN_BIT as int;
    assert(two.magnitude() == 1024 * h);
    assert(two.is_finite());
    lemma_mul_zero(two, v.dot_spec(n));
    let factor = two.mul_spec(v.dot_spec(n));
    lemma_mul_zero(n.x, factor);
    lemma_mul_zero(n.y, factor);
    lemma_mul_zero(n.z, factor);
    lemma_neg_parts(n.x.mul_spec(factor));
    lemma_neg_parts(n.y.mul_spec(factor));
    lemma_neg_parts(n.z.mul_spec(factor));
    lemma_add_zero(v.x, n.x.mul_spec(factor).neg_spec());
    lemma_add_zero(v.y, n.y.mul_spec(factor).neg_spec());
    lemma_add_zero(v.z, n.z.mul_spec(factor).neg_spec());
}

/// The dot product with a unit vector along an axis is the component at
/// that axis, with the sign of the unit vector.
pub proof fn lemma_dot_on_axis(v: Vec3, n: Vec3, axis: int)
    requires
        v.is_finite(),
        n.along_axis(axis),
    ensures
        v.dot_spec(n).eq_spec(v.component(axis).mul_spec(n.component(axis))),
        v.component(axis).mul_spec(n.component(axis)) == if n.component(axis).negative() {
            v.component(axis).neg_spec()
        } else {
            v.component(axis)
        },
{
    let px = v.x.mul_spec(n.x);
    let py = v.y.mul_spec(n.y);
    let pz = v.z.mul_spec(n.z);
    lemma_mul_unit(v.component(axis), n.component(axis));
    lemma_neg_parts(v.component(axis));
    if axis == 0 {
        lemma_mul_zero(v.y, n.y);
        lemma_mul_zero(v.z, n.z);
        lemma_add_zero(px, py);
        lemma_add_zero(px.add_spec(py), pz);
    } else if axis == 1 {
        lemma_mul_zero(v.x, n.x);
        lemma_mul_zero(v.z, n.z);
        lemma_zero_plus(px, py);
        lemma_add_zero(px.add_spec(py), pz);
    } else {
        lemma_mul_zero(v.x, n.x);
        lemma_mul_zero(v.y, n.y);
        lemma_add_zero(px, py);
        lemma_zero_plus(px.add_spec(py), pz);
    }
}

/// One component of a vector mirrored at a unit vector along an axis: the
/// component at the axis is negated, the others are kept.
pub proof fn lemma_reflect_component(v: Vec3, n: Vec3, axis: int, index: int)
    requires
        v.is_finite(),
        n.along_axis(axis),
        (Scalar { bits: TWO_BITS }).mul_spec(v.component(axis)).is_finite(),
        0 <= index < 3,
    ensures
        Vec3::reflect_spec(v, n).component(index).eq_spec(
            if index == axis {
                v.component(index).neg_spec()
            } else {
                v.component(index)
            },
        ),
{
    let two = Scalar { bits: TWO_BITS };
    let h = crate::scalar::HIDDEN_BIT as int;
    assert(two.magnitude() == 1024 * h);
    let vk = v.component(axis);
    let nk = n.component(axis);
    let p = vk.mul_spec(nk);
    let dot = v.dot_spec(n);
    lemma_dot_on_axis(v, n, axis);
    lemma_neg_parts(vk);
    lemma_mul_value_congruent(two, dot, p);
    let f = two.mul_spec(dot);
    let y = two.mul_spec(vk);
    lemma_mul_neg(two, vk);
    lemma_neg_parts(y);
    // The factor by which the normal is scaled has the value of twice the
    // component, with the sign of the normal.
    assert(f.is_finite());
    let vi = v.component(index);
    let ni = n.component(index);
    let g = ni.mul_spec(f);
    lemma_mul_commutes(ni, f);
    lemma_neg_parts(g);
    if index != axis {
        lemma_mul_zero(f, ni);
        lemma_add_zero(vi, g.neg_spec());
    } else {
        lemma_mul_value_congruent(nk, f, two.mul_spec(p));
        lemma_mul_unit(two.mul_spec(p), nk);
        assert(nk.mul_spec(two.mul_spec(p)) == y);
        assert(g.eq_spec(y));
        lemma_add_value_congruent(vk, g.neg_spec(), vk, y.neg_spec());
        lemma_sub_double(vk);
    }
}

/// A vector mirrored at a unit vector along an axis keeps its length and
/// turns its part along the normal round: where the vector has neither NaN
/// nor infinity and twice its component at the axis is finite, the squared
/// length of the mirrored vector is that of the vector, and its dot product
/// with the normal is the negated dot product of the vector.
pub proof fn lemma_reflect_on_axis(v: Vec3, n: Vec3, axis: int)
    requires
        v.is_finite(),
        n.along_axis(axis),
        (Scalar { bits: TWO_BITS }).mul_spec(v.component(axis)).is_finite(),
    ensures
        Vec3::reflect_spec(v, n).length_squared_spec() == v.length_squared_spec(),
        Vec3::reflect_spec(v, n).dot_spec(n).eq_spec(v.dot_spec(n).neg_spec()),
{
    let r = Vec3::reflect_spec(v, n);
    lemma_reflect_component(v, n, axis, 0);
    lemma_reflect_component(v, n, axis, 1);
    lemma_reflect_component(v, n, axis, 2);
    lemma_neg_parts(v.x);
    lemma_neg_parts(v.y);
    lemma_neg_parts(v.z);
    lemma_square(r.x, v.x);
    lemma_square(r.y, v.y);
    lemma_square(r.z, v.z);
    // The dot products with the normal.
    let vk = v.component(axis);
    let nk = n.component(axis);
    lemma_dot_on_axis(v, n, axis);
    lemma_dot_on_axis(r, n, axis);
    lemma_mul_value_congruent(nk, r.component(axis), vk.neg_spec());
    lemma_mul_unit(vk, nk);
    lemma_mul_neg(vk, nk);
    lemma_neg_parts(vk.mul_spec(nk));
    lemma_neg_parts(v.dot_spec(n));
}

/// The centre of the unit ball lies inside it.
pub proof fn lemma_centre_in_unit_sphere()
    ensures
        Vec3::zeroed_spec().in_unit_sphere(),
{
    reveal(Scalar::mul_spec);
    reveal(Scalar::add_spec);
    let zero = Scalar { bits: 0 };
    assert(zero.significand() == 0);
    assert(zero.mul_spec(zero) == zero);
    assert(zero.exact_sum(zero) == 0) by {
        assert(zero.signed_significand() == 0);
        assert(0 * pow2(0) == 0) by (nonlinear_arith);
    }
    assert(zero.add_spec(zero) == zero);
    assert(Vec3::zeroed_spec().length_squared_spec() == zero);
}

} // verus!
