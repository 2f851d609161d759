//! The shapes: a sphere.
use crate::consts::Interval;
use crate::exact::{lemma_div_neg, lemma_mul_neg, lemma_mul_neg_both, lemma_neg_parts};
use crate::hittable::HitRecord;
use crate::material::Material;
use crate::order::{
    lemma_add_mirror, lemma_add_not_negative, lemma_div_monotone, lemma_div_self,
    lemma_finite_result, lemma_mul_below_square, lemma_mul_opposite, lemma_sqrt_not_negative,
    lemma_square, lemma_sub_add_around, lemma_sub_antisymmetric, lemma_sub_not_above,
    lemma_sub_of_ordered,
};
use crate::ray::Ray;
use crate::scalar::Scalar;
use crate::vec3::{lemma_dot_neg, Point3, Vec3};
use vstd::prelude::*;

verus! {

/// A sphere. A negative radius turns its normals inward.
#[derive(Clone, Copy, Debug)]
pub struct Sphere {
    pub center: Point3,
    pub radius: Scalar,
    pub material: Material,
}

/// The quadratic `a·t² + 2·half_b·t + c = 0` whose roots are the parameters
/// at which a ray meets a sphere.
#[derive(Clone, Copy, Debug)]
pub struct Quadratic {
    pub a: Scalar,
    pub half_b: Scalar,
    pub c: Scalar,
}

impl Quadratic {
    /// `half_b² - a·c`.
    pub open spec fn discriminant_spec(self) -> Scalar {
        self.half_b.mul_spec(self.half_b).sub_spec(self.a.mul_spec(self.c))
    }

    /// `(-half_b - sqrt(discriminant)) / a`.
    pub open spec fn near_root_spec(self) -> Scalar {
        self.half_b.neg_spec().sub_spec(self.discriminant_spec().sqrt_spec()).div_spec(self.a)
    }

    /// `(-half_b + sqrt(discriminant)) / a`.
    pub open spec fn far_root_spec(self) -> Scalar {
        self.half_b.neg_spec().add_spec(self.discriminant_spec().sqrt_spec()).div_spec(self.a)
    }

    /// The root that counts as the hit: none when the discriminant is
    /// negative, else the near root when it lies strictly inside the
    /// interval, else the far root when that one does.
    pub open spec fn root_spec(self, t_interval: Interval) -> Option<Scalar> {
        if self.discriminant_spec().lt_spec(Scalar { bits: 0 }) {
            None
        } else if t_interval.surrounds_spec(self.near_root_spec()) {
            Some(self.near_root_spec())
        } else if t_interval.surrounds_spec(self.far_root_spec()) {
            Some(self.far_root_spec())
        } else {
            None
        }
    }

    pub fn discriminant(&self) -> (r: Scalar)
        ensures
            r == self.discriminant_spec(),
    {
        self.half_b.mul(self.half_b).sub(self.a.mul(self.c))
    }

    pub fn root(&self, t_interval: Interval) -> (r: Option<Scalar>)
        ensures
            r == self.root_spec(t_interval),
            r.is_some() ==> t_interval.surrounds_spec(r.unwrap()),
    {
        let discriminant: Scalar = self.discriminant();
        if discriminant.lt(Scalar::signed_zero(false)) {
            return None;
        }
        let disc_sqrt: Scalar = discriminant.sqrt();
        let mut root: Scalar = self.half_b.neg().sub(disc_sqrt).div(self.a);
        if !t_interval.surrounds(root) {
            root = self.half_b.neg().add(disc_sqrt).div(self.a);
            if !t_interval.surrounds(root) {
                return None;
            }
        }
        Some(root)
    }
}

impl Sphere {
    /// The quadratic of `ray` and the sphere: with `oc` from the centre to
    /// the ray's origin, `a = dir·dir`, `half_b = oc·dir` and
    /// `c = oc·oc - radius²`.
    pub open spec fn quadratic_spec(self, ray: Ray) -> Quadratic {
        let oc = ray.origin.sub_spec(self.center);
        Quadratic {
            a: ray.dir.length_squared_spec(),
            half_b: oc.dot_spec(ray.dir),
            c: oc.length_squared_spec().sub_spec(self.radius.mul_spec(self.radius)),
        }
    }

    /// The normal at a point of the sphere: from the centre to the point,
    /// divided by the radius with its sign.
    pub open spec fn outward_normal_spec(self, point: Point3) -> Vec3 {
        point.sub_spec(self.center).div_spec(self.radius)
    }

    /// The record of a hit at parameter `t`.
    pub open spec fn record_at(self, ray: Ray, t: Scalar) -> HitRecord {
        let point = ray.at_spec(t);
        let outward_normal = self.outward_normal_spec(point);
        HitRecord {
            point,
            normal: HitRecord::face_normal(ray, outward_normal),
            t,
            front_face: HitRecord::faces_front(ray, outward_normal),
            material: Some(self.material),
        }
    }

    /// The record of the hit of `ray` with the sphere, its parameter
    /// strictly inside `t_interval`, if there is one.
    pub open spec fn hit_spec(self, ray: Ray, t_interval: Interval) -> Option<HitRecord> {
        match self.quadratic_spec(ray).root_spec(t_interval) {
            Some(t) => Some(self.record_at(ray, t)),
            None => None,
        }
    }

    pub fn new(center: Point3, radius: Scalar, material: Material) -> (r: Sphere)
        ensures
            r == (Sphere { center, radius, material }),
    {
        Sphere { center, radius, material }
    }

    pub fn quadratic(&self, ray: &Ray) -> (r: Quadratic)
        ensures
            r == self.quadratic_spec(*ray),
    {
        let radius_to_center: Vec3 = ray.origin().sub(&self.center);
        Quadratic {
            a: ray.dir().length_squared(),
            half_b: radius_to_center.dot(ray.dir()),
            c: radius_to_center.length_squared().sub(self.radius.mul(self.radius)),
        }
    }

    pub fn hit(&self, ray: &Ray, t_interval: Interval, hit_rec: &mut HitRecord) -> (r: bool)
        ensures
            r == self.hit_spec(*ray, t_interval).is_some(),
            r ==> *final(hit_rec) == self.hit_spec(*ray, t_interval).unwrap(),
            !r ==> *final(hit_rec) == *old(hit_rec),
    {
        let root: Scalar = match self.quadratic(ray).root(t_interval) {
            Some(root) => root,
            None => {
                return false;
            },
        };
        hit_rec.t = root;
        hit_rec.point = ray.at(root);
        let outward_normal: Vec3 = hit_rec.point.sub(&self.center).div(self.radius);
        hit_rec.set_face_normal(ray, outward_normal);
        hit_rec.material = Some(self.material);
        true
    }
}

/// `a` is at most `b`, or the two are the same scalar.
pub open spec fn not_above(a: Scalar, b: Scalar) -> bool {
    a == b || a.le_spec(b)
}

/// Lowering the upper bound of the interval never brings a root that is
/// farther: the root inside the smaller interval, if there is one, is at
/// most the root inside the larger one; and where the smaller interval has
/// no root, the root of the larger one is not below the lowered bound.
pub proof fn lemma_root_under_bound(q: Quadratic, min: Scalar, max: Scalar, bound: Scalar)
    requires
        not_above(bound, max),
    ensures
        match q.root_spec(Interval { min, max: bound }) {
            Some(u) => min.lt_spec(u) && u.lt_spec(bound) && u.lt_spec(max) && match q.root_spec(
                Interval { min, max },
            ) {
                Some(t) => u.le_spec(t),
                None => false,
            },
            None => match q.root_spec(Interval { min, max }) {
                Some(t) => bound.le_spec(t),
                None => true,
            },
        },
{
}

/// The two roots of a quadratic lie on either side of their middle: where
/// `a` is finite and above zero, `half_b` finite, and the discriminant
/// finite and not below zero, the near root is at most `-half_b / a`, and
/// that is at most the far root.
pub proof fn lemma_roots_around_middle(q: Quadratic)
    requires
        q.a.is_finite(),
        !q.a.is_zero(),
        !q.a.negative(),
        q.half_b.is_finite(),
        q.discriminant_spec().is_finite(),
        q.discriminant_spec().rank() >= 0,
    ensures
        q.near_root_spec().le_spec(q.half_b.neg_spec().div_spec(q.a)),
        q.half_b.neg_spec().div_spec(q.a).le_spec(q.far_root_spec()),
        q.near_root_spec().le_spec(q.far_root_spec()),
{
    let root = q.discriminant_spec().sqrt_spec();
    let middle = q.half_b.neg_spec();
    lemma_sqrt_not_negative(q.discriminant_spec());
    lemma_neg_parts(q.half_b);
    lemma_sub_add_around(middle, root);
    lemma_div_monotone(middle.sub_spec(root), middle, q.a);
    lemma_div_monotone(middle, middle.add_spec(root), q.a);
}

/// A ray fired at the centre of a sphere never misses for want of roots,
/// and the centre lies between them: its direction being the centre minus
/// its origin, the discriminant of its quadratic is no NaN and not
/// negative, and the near root is at most one, the parameter of the
/// centre, which is at most the far root. This holds where the origin is
/// not the centre and the square of `a` and the square of the radius are
/// finite.
pub proof fn lemma_central_ray_has_roots(sphere: Sphere, origin: Point3)
    requires
        ({
            let ray = Ray { origin, dir: sphere.center.sub_spec(origin) };
            let q = sphere.quadratic_spec(ray);
            q.a.mul_spec(q.a).is_finite() && !q.a.is_zero()
        }),
        sphere.radius.mul_spec(sphere.radius).is_finite(),
    ensures
        ({
            let ray = Ray { origin, dir: sphere.center.sub_spec(origin) };
            let q = sphere.quadratic_spec(ray);
            &&& (Scalar { bits: 0 }).le_spec(q.discriminant_spec())
            &&& q.near_root_spec().le_spec(Scalar::one_spec())
            &&& Scalar::one_spec().le_spec(q.far_root_spec())
        }),
{
    let dir = sphere.center.sub_spec(origin);
    let ray = Ray { origin, dir };
    let q = sphere.quadratic_spec(ray);
    let oc = origin.sub_spec(sphere.center);
    let sx = dir.x.mul_spec(dir.x);
    let sy = dir.y.mul_spec(dir.y);
    let sz = dir.z.mul_spec(dir.z);
    // Everything that `a` is made of is finite.
    lemma_finite_result(q.a, q.a);
    lemma_finite_result(sx.add_spec(sy), sz);
    lemma_finite_result(sx, sy);
    lemma_finite_result(dir.x, dir.x);
    lemma_finite_result(dir.y, dir.y);
    lemma_finite_result(dir.z, dir.z);
    // From the centre to the origin is the opposite of the direction.
    lemma_sub_antisymmetric(sphere.center.x, origin.x);
    lemma_sub_antisymmetric(sphere.center.y, origin.y);
    lemma_sub_antisymmetric(sphere.center.z, origin.z);
    lemma_square(oc.x, dir.x);
    lemma_square(oc.y, dir.y);
    lemma_square(oc.z, dir.z);
    assert(oc.length_squared_spec() == q.a);
    // So `half_b` is the opposite of `a`.
    lemma_mul_opposite(oc.x, dir.x);
    lemma_mul_opposite(oc.y, dir.y);
    lemma_mul_opposite(oc.z, dir.z);
    let tx = oc.x.mul_spec(dir.x);
    let ty = oc.y.mul_spec(dir.y);
    let tz = oc.z.mul_spec(dir.z);
    lemma_add_mirror(sx, sy, tx, ty);
    lemma_add_mirror(sx.add_spec(sy), sz, tx.add_spec(ty), tz);
    assert(q.half_b.rank() == -q.a.rank());
    lemma_square(q.half_b, q.a);
    // `c` is at most `a`, and `a` times `c` at most the square of `a`.
    lemma_add_not_negative(sx, sy);
    lemma_add_not_negative(sx.add_spec(sy), sz);
    let radius_squared = sphere.radius.mul_spec(sphere.radius);
    lemma_square(sphere.radius, sphere.radius);
    lemma_sub_not_above(q.a, radius_squared);
    lemma_mul_below_square(q.a, q.c);
    lemma_sub_of_ordered(q.a.mul_spec(q.a), q.a.mul_spec(q.c));
    // The middle of the roots is one: `-half_b` has the value of `a`.
    let middle = q.half_b.neg_spec();
    lemma_neg_parts(q.half_b);
    lemma_div_self(q.a);
    lemma_div_monotone(middle, q.a, q.a);
    lemma_div_monotone(q.a, middle, q.a);
    if q.discriminant_spec().is_finite() {
        lemma_roots_around_middle(q);
    } else {
        lemma_infinite_discriminant(q);
    }
}

/// Where the discriminant is infinite and `a` and `half_b` are finite, `a`
/// above zero, the near root is minus infinity and the far root infinity.
pub proof fn lemma_infinite_discriminant(q: Quadratic)
    requires
        q.a.is_finite(),
        !q.a.is_zero(),
        !q.a.negative(),
        q.half_b.is_finite(),
        q.discriminant_spec().is_infinite(),
        !q.discriminant_spec().negative(),
    ensures
        q.near_root_spec() == (Scalar { bits: crate::consts::NEG_INFINITY }),
        q.far_root_spec() == (Scalar { bits: crate::consts::INFINITY }),
{
    reveal(Scalar::sqrt_spec);
    reveal(Scalar::add_spec);
    reveal(Scalar::div_spec);
    lemma_neg_parts(q.half_b);
    let root = q.discriminant_spec().sqrt_spec();
    lemma_neg_parts(root);
}

/// A sphere with its radius negated is met by a ray where the sphere
/// itself is met: the quadratic is the same, so a hit is found for the one
/// when it is found for the other, at the same parameter and point.
pub proof fn lemma_negated_radius_hit(sphere: Sphere, ray: Ray, t_interval: Interval)
    ensures
        ({
            let inner = Sphere { radius: sphere.radius.neg_spec(), ..sphere };
            &&& inner.quadratic_spec(ray) == sphere.quadratic_spec(ray)
            &&& inner.hit_spec(ray, t_interval).is_some() == sphere.hit_spec(
                ray,
                t_interval,
            ).is_some()
            &&& sphere.hit_spec(ray, t_interval).is_some() ==> {
                &&& inner.hit_spec(ray, t_interval).unwrap().t == sphere.hit_spec(
                    ray,
                    t_interval,
                ).unwrap().t
                &&& inner.hit_spec(ray, t_interval).unwrap().point == sphere.hit_spec(
                    ray,
                    t_interval,
                ).unwrap().point
            }
        }),
{
    lemma_mul_neg_both(sphere.radius, sphere.radius);
}

/// A sphere with its radius negated has its normals reversed: where the
/// outward normal of the sphere at a point has no NaN, the normal of the
/// negated sphere at that point is its negation.
pub proof fn lemma_negated_radius_normal(sphere: Sphere, point: Point3)
    requires
        !sphere.outward_normal_spec(point).x.is_nan(),
        !sphere.outward_normal_spec(point).y.is_nan(),
        !sphere.outward_normal_spec(point).z.is_nan(),
    ensures
        (Sphere { radius: sphere.radius.neg_spec(), ..sphere }).outward_normal_spec(point)
            == sphere.outward_normal_spec(point).neg_spec(),
{
    let offset = point.sub_spec(sphere.center);
    let one = Scalar::one_spec();
    let inverse = one.div_spec(sphere.radius);
    assert(!inverse.is_nan()) by {
        reveal(Scalar::mul_spec);
    }
    lemma_div_neg(one, sphere.radius);
    lemma_mul_neg(offset.x, inverse);
    lemma_mul_neg(offset.y, inverse);
    lemma_mul_neg(offset.z, inverse);
}

/// A sphere with its radius negated is hit as the sphere is, seen from the
/// other side: where the ray hits the sphere, the outward normal at the hit
/// has no NaN, and the ray does not run along the surface there, the record
/// of the hit with the negated sphere differs from that with the sphere in
/// the side alone.
pub proof fn lemma_negated_radius_record(sphere: Sphere, ray: Ray, t_interval: Interval)
    requires
        sphere.hit_spec(ray, t_interval).is_some(),
        ({
            let normal = sphere.outward_normal_spec(
                sphere.hit_spec(ray, t_interval).unwrap().point,
            );
            &&& !normal.x.is_nan()
            &&& !normal.y.is_nan()
            &&& !normal.z.is_nan()
            &&& !ray.dir.dot_spec(normal).is_nan()
            &&& !ray.dir.dot_spec(normal).is_zero()
        }),
    ensures
        (Sphere { radius: sphere.radius.neg_spec(), ..sphere }).hit_spec(ray, t_interval) == Some(
            HitRecord {
                front_face: !sphere.hit_spec(ray, t_interval).unwrap().front_face,
                ..sphere.hit_spec(ray, t_interval).unwrap()
            },
        ),
{
    let rec = sphere.hit_spec(ray, t_interval).unwrap();
    let normal = sphere.outward_normal_spec(rec.point);
    lemma_negated_radius_hit(sphere, ray, t_interval);
    lemma_negated_radius_normal(sphere, rec.point);
    lemma_dot_neg(ray.dir, normal);
    lemma_neg_parts(normal.x);
    lemma_neg_parts(normal.y);
    lemma_neg_parts(normal.z);
}

} // verus!
