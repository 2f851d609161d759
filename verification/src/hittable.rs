//! What a ray can hit, and the record of a hit.
use crate::consts::Interval;
use crate::hittable::shapes::{lemma_root_under_bound, Sphere};
use crate::material::Material;
use crate::ray::Ray;
use crate::scalar::Scalar;
use crate::vec3::{lemma_dot_neg, Point3, Vec3};
use vstd::prelude::*;

pub mod shapes;

verus! {

/// The encoding of the largest finite scalar.
pub const MAX_BITS: u64 = 0x7FEF_FFFF_FFFF_FFFF;

#[derive(Clone, Copy, Debug)]
pub struct HitRecord {
    pub point: Point3,
    pub normal: Vec3,
    pub t: Scalar,
    pub front_face: bool,
    pub material: Option<Material>,
}

impl HitRecord {
    /// The record of no hit yet.
    pub open spec fn new_spec() -> HitRecord {
        HitRecord {
            point: Vec3::zeroed_spec(),
            normal: Vec3::zeroed_spec(),
            t: Scalar { bits: MAX_BITS },
            front_face: true,
            material: None,
        }
    }

    /// The ray meets the side that `outward_normal` points away from.
    pub open spec fn faces_front(ray: Ray, outward_normal: Vec3) -> bool {
        ray.dir.dot_spec(outward_normal).lt_spec(Scalar { bits: 0 })
    }

    /// The normal that is stored: the outward one turned against the ray.
    pub open spec fn face_normal(ray: Ray, outward_normal: Vec3) -> Vec3 {
        if HitRecord::faces_front(ray, outward_normal) {
            outward_normal
        } else {
            outward_normal.neg_spec()
        }
    }

    pub fn set_face_normal(&mut self, ray: &Ray, outward_normal: Vec3)
        ensures
            final(self).front_face == HitRecord::faces_front(*ray, outward_normal),
            final(self).normal == HitRecord::face_normal(*ray, outward_normal),
            final(self).point == old(self).point,
            final(self).t == old(self).t,
            final(self).material == old(self).material,
    {
        self.front_face = ray.dir().dot(&outward_normal).lt(Scalar::signed_zero(false));
        self.normal = if self.front_face {
            outward_normal
        } else {
            outward_normal.neg()
        };
    }

    pub fn new() -> (r: HitRecord)
        ensures
            r == HitRecord::new_spec(),
    {
        HitRecord {
            point: Vec3::zeroed(),
            normal: Vec3::zeroed(),
            t: Scalar::from_bits(MAX_BITS),
            front_face: true,
            material: None,
        }
    }

    pub fn set_params_equal_to(&mut self, other_hit_rec: &HitRecord)
        ensures
            final(self).point == other_hit_rec.point,
            final(self).normal == other_hit_rec.normal,
            final(self).t == other_hit_rec.t,
            final(self).front_face == other_hit_rec.front_face,
            final(self).material == old(self).material,
    {
        self.point = other_hit_rec.point;
        self.normal = other_hit_rec.normal;
        self.t = other_hit_rec.t;
        self.front_face = other_hit_rec.front_face;
    }
}

impl Default for HitRecord {
    fn default() -> (r: HitRecord)
        ensures
            r == HitRecord::new_spec(),
    {
        HitRecord::new()
    }
}

/// The normal that is stored never points along the ray: where the dot
/// product of the direction and the outward normal is no NaN, the product
/// of the direction and the stored normal is at most zero, and below zero
/// on the front.
pub proof fn lemma_face_normal_against_ray(ray: Ray, outward_normal: Vec3)
    requires
        !ray.dir.dot_spec(outward_normal).is_nan(),
    ensures
        ray.dir.dot_spec(HitRecord::face_normal(ray, outward_normal)).le_spec(Scalar { bits: 0 }),
        HitRecord::faces_front(ray, outward_normal) ==> ray.dir.dot_spec(
            HitRecord::face_normal(ray, outward_normal),
        ).lt_spec(Scalar { bits: 0 }),
{
    lemma_dot_neg(ray.dir, outward_normal);
}

/// A shape that a ray can hit.
#[derive(Clone, Copy, Debug)]
pub enum Hittable {
    Sphere(Sphere),
}

impl Hittable {
    /// The record of the hit of `ray` with the shape, its parameter strictly
    /// inside `t_interval`, if there is one.
    pub open spec fn hit_spec(self, ray: Ray, t_interval: Interval) -> Option<HitRecord> {
        match self {
            Hittable::Sphere(sphere) => sphere.hit_spec(ray, t_interval),
        }
    }

    pub fn hit(&self, ray: &Ray, t_interval: Interval, hit_rec: &mut HitRecord) -> (r: bool)
        ensures
            r == self.hit_spec(*ray, t_interval).is_some(),
            r ==> *final(hit_rec) == self.hit_spec(*ray, t_interval).unwrap(),
            !r ==> *final(hit_rec) == *old(hit_rec),
    {
        match self {
            Hittable::Sphere(sphere) => sphere.hit(ray, t_interval, hit_rec),
        }
    }
}

/// The record that a walk over `objects` ends with: each shape is asked for
/// a hit strictly between `min` and the nearest hit found before it, or
/// `max` while there is none, and a hit replaces the one before.
pub open spec fn nearest_hit(objects: Seq<Hittable>, ray: Ray, min: Scalar, max: Scalar) -> Option<
    HitRecord,
>
    decreases objects.len(),
{
    if objects.len() == 0 {
        None
    } else {
        let before = nearest_hit(objects.drop_last(), ray, min, max);
        let bound = match before {
            Some(rec) => rec.t,
            None => max,
        };
        match objects.last().hit_spec(ray, Interval { min, max: bound }) {
            Some(rec) => Some(rec),
            None => before,
        }
    }
}

/// The walk over the shapes finds the nearest hit: its parameter lies
/// strictly inside the interval and is at most that of the hit which any
/// one of the shapes has inside the interval; and it finds none only where
/// no shape has one.
pub proof fn lemma_nearest_hit_is_nearest(
    objects: Seq<Hittable>,
    ray: Ray,
    min: Scalar,
    max: Scalar,
)
    ensures
        match nearest_hit(objects, ray, min, max) {
            Some(rec) => {
                &&& min.lt_spec(rec.t)
                &&& rec.t.lt_spec(max)
                &&& forall|i: int|
                    0 <= i < objects.len() ==> match (#[trigger] objects[i]).hit_spec(
                        ray,
                        Interval { min, max },
                    ) {
                        Some(other) => rec.t.le_spec(other.t),
                        None => true,
                    }
            },
            None => forall|i: int|
                0 <= i < objects.len() ==> (#[trigger] objects[i]).hit_spec(
                    ray,
                    Interval { min, max },
                ).is_none(),
        },
    decreases objects.len(),
{
    if objects.len() > 0 {
        let front = objects.drop_last();
        lemma_nearest_hit_is_nearest(front, ray, min, max);
        let before = nearest_hit(front, ray, min, max);
        let bound = match before {
            Some(rec) => rec.t,
            None => max,
        };
        match objects.last() {
            Hittable::Sphere(sphere) => {
                lemma_root_under_bound(sphere.quadratic_spec(ray), min, max, bound);
            },
        }
        assert forall|i: int| 0 <= i < objects.len() - 1 implies objects[i] == front[i] by {}
    }
}

pub struct HittableObjects {
    pub hittables_vec: Vec<Hittable>,
}

impl HittableObjects {
    pub fn new() -> (r: HittableObjects)
        ensures
            r.hittables_vec@.len() == 0,
    {
        HittableObjects { hittables_vec: Vec::new() }
    }

    pub fn clear(&mut self)
        ensures
            final(self).hittables_vec@.len() == 0,
    {
        self.hittables_vec.clear();
    }

    pub fn add_hittable(&mut self, hittable: Hittable)
        ensures
            final(self).hittables_vec@ == old(self).hittables_vec@.push(hittable),
    {
        self.hittables_vec.push(hittable);
    }

    /// The hit of `ray` that is nearest to its origin among the hits with a
    /// parameter strictly inside `t_interval`.
    pub open spec fn hit_spec(&self, ray: Ray, t_interval: Interval) -> Option<HitRecord> {
        nearest_hit(self.hittables_vec@, ray, t_interval.min, t_interval.max)
    }

    pub fn hit(&self, ray: &Ray, t_interval: Interval, hit_rec: &mut HitRecord) -> (r: bool)
        ensures
            r == self.hit_spec(*ray, t_interval).is_some(),
            r ==> *final(hit_rec) == self.hit_spec(*ray, t_interval).unwrap(),
            !r ==> *final(hit_rec) == *old(hit_rec),
    {
        let mut temp_rec: HitRecord = HitRecord::new();
        let mut hit_anything: bool = false;
        let mut closest_so_far: Scalar = t_interval.max;
        let mut i: usize = 0;
        while i < self.hittables_vec.len()
            invariant
                i <= self.hittables_vec.len(),
                hit_anything == nearest_hit(
                    self.hittables_vec@.take(i as int),
                    *ray,
                    t_interval.min,
                    t_interval.max,
                ).is_some(),
                hit_anything ==> *hit_rec == nearest_hit(
                    self.hittables_vec@.take(i as int),
                    *ray,
                    t_interval.min,
                    t_interval.max,
                ).unwrap() && closest_so_far == hit_rec.t,
                !hit_anything ==> *hit_rec == *old(hit_rec) && closest_so_far == t_interval.max,
            decreases self.hittables_vec.len() - i,
        {
            proof {
                assert(self.hittables_vec@.take(i + 1).drop_last() =~= self.hittables_vec@.take(
                    i as int,
                ));
                assert(self.hittables_vec@.take(i + 1).last() == self.hittables_vec@[i as int]);
            }
            if self.hittables_vec[i].hit(
                ray,
                Interval::new(t_interval.min, closest_so_far),
                &mut temp_rec,
            ) {
                hit_anything = true;
                closest_so_far = temp_rec.t;
                hit_rec.set_params_equal_to(&temp_rec);
                hit_rec.material = temp_rec.material;
            }
            i = i + 1;
        }
        proof {
            assert(self.hittables_vec@.take(self.hittables_vec.len() as int)
                =~= self.hittables_vec@);
        }
        hit_anything
    }
}

impl Default for HittableObjects {
    fn default() -> (r: HittableObjects)
        ensures
            r.hittables_vec@.len() == 0,
    {
        HittableObjects::new()
    }
}

} // verus!
