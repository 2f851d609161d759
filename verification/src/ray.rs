//! A half-line: the points `origin + t · dir`.
use crate::exact::{lemma_add_commutes, lemma_add_zero, lemma_mul_zero};
use crate::scalar::Scalar;
use crate::vec3::{Point3, Vec3};
use vstd::prelude::*;

verus! {

#[derive(Clone, Copy, Debug)]
pub struct Ray {
    pub origin: Point3,
    pub dir: Vec3,
}

impl Ray {
    /// The point at parameter `t`.
    pub open spec fn at_spec(self, t: Scalar) -> Vec3 {
        self.dir.scale_spec(t).add_spec(self.origin)
    }

    pub fn new(origin: Point3, dir: Vec3) -> (r: Ray)
        ensures
            r.origin == origin,
            r.dir == dir,
    {
        Ray { origin, dir }
    }

    pub fn origin(&self) -> (r: &Point3)
        ensures
            *r == self.origin,
    {
        &self.origin
    }

    pub fn dir(&self) -> (r: &Vec3)
        ensures
            *r == self.dir,
    {
        &self.dir
    }

    pub fn at(&self, t: Scalar) -> (r: Vec3)
        ensures
            r == self.at_spec(t),
    {
        self.dir.scale(t).add(&self.origin)
    }

    pub fn set_origin(&mut self, origin: Point3)
        ensures
            final(self).origin == origin,
            final(self).dir == old(self).dir,
    {
        self.origin = origin;
    }

    pub fn set_dir(&mut self, dir: Vec3)
        ensures
            final(self).dir == dir,
            final(self).origin == old(self).origin,
    {
        self.dir = dir;
    }
}

/// A ray starts at its origin: where the direction has no NaN and no
/// infinity, and the origin no NaN, the point at the parameter zero equals
/// the origin.
pub proof fn lemma_ray_starts_at_origin(ray: Ray)
    requires
        ray.dir.is_finite(),
        !ray.origin.x.is_nan(),
        !ray.origin.y.is_nan(),
        !ray.origin.z.is_nan(),
    ensures
        ray.at_spec(Scalar { bits: 0 }).matches_spec(ray.origin),
{
    let zero = Scalar { bits: 0 };
    lemma_mul_zero(ray.dir.x, zero);
    lemma_mul_zero(ray.dir.y, zero);
    lemma_mul_zero(ray.dir.z, zero);
    lemma_add_zero(ray.origin.x, ray.dir.x.mul_spec(zero));
    lemma_add_zero(ray.origin.y, ray.dir.y.mul_spec(zero));
    lemma_add_zero(ray.origin.z, ray.dir.z.mul_spec(zero));
    lemma_add_commutes(ray.origin.x, ray.dir.x.mul_spec(zero));
    lemma_add_commutes(ray.origin.y, ray.dir.y.mul_spec(zero));
    lemma_add_commutes(ray.origin.z, ray.dir.z.mul_spec(zero));
}

} // verus!
