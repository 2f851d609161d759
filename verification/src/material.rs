//! How a surface sends a ray on: diffuse, mirror-like or glass-like.
use crate::exact::{lemma_add_zero, lemma_mul_one, lemma_mul_zero, lemma_one_over_one};
use crate::hittable::HitRecord;
use crate::random::{next_word, unit_scalar, unit_scalar_spec};
use crate::ray::Ray;
use crate::scalar::Scalar;
use crate::vec3::{Color, Vec3};
use vstd::prelude::*;

verus! {

/// A mirror-like surface: it reflects, blurred by `fuzziness`.
#[derive(Clone, Copy, Debug)]
pub struct Metal {
    pub albedo: Color,
    pub fuzziness: Scalar,
}

/// A diffuse surface.
#[derive(Clone, Copy, Debug)]
pub struct Lambertian {
    pub albedo: Color,
}

/// A glass-like surface: it reflects or refracts and takes no light away.
#[derive(Clone, Copy, Debug)]
pub struct Dieletric {
    pub index_of_refraction: Scalar,
}

/// The surface of a shape.
#[derive(Clone, Copy, Debug)]
pub enum Material {
    Lambertian(Lambertian),
    Metal(Metal),
    Dieletric(Dieletric),
}

/// The colour with every channel `1.0`.
pub open spec fn white_spec() -> Color {
    Vec3 { x: Scalar::one_spec(), y: Scalar::one_spec(), z: Scalar::one_spec() }
}

/// `x⁵`, as `((x·x)·(x·x))·x`.
pub open spec fn fifth_power_spec(x: Scalar) -> Scalar {
    let square = x.mul_spec(x);
    square.mul_spec(square).mul_spec(x)
}

pub fn fifth_power(x: Scalar) -> (r: Scalar)
    ensures
        r == fifth_power_spec(x),
{
    let square: Scalar = x.mul(x);
    square.mul(square).mul(x)
}

impl Metal {
    /// The direction of the ray that leaves: the unit direction of the
    /// incoming ray mirrored at the normal, plus `fuzziness` times a random
    /// unit vector.
    pub open spec fn direction_spec(self, incoming: Vec3, normal: Vec3, unit: Vec3) -> Vec3 {
        Vec3::reflect_spec(incoming.unit_vector_spec(), normal).add_spec(
            unit.scale_spec(self.fuzziness),
        )
    }

    /// The ray leaves only on the side of the normal.
    pub open spec fn leaves_spec(direction: Vec3, normal: Vec3) -> bool {
        (Scalar { bits: 0 }).lt_spec(direction.dot_spec(normal))
    }

    pub fn new(albedo: Color, fuzziness: Scalar) -> (r: Metal)
        ensures
            r == (Metal { albedo, fuzziness }),
    {
        Metal { albedo, fuzziness }
    }

    /// Scatters with a given random unit vector.
    pub fn scatter_with(
        &self,
        ray_in: &Ray,
        hit_record: &HitRecord,
        unit: Vec3,
        attenuation: &mut Color,
        scattered: &mut Ray,
    ) -> (r: bool)
        ensures
            *final(attenuation) == self.albedo,
            final(scattered).origin == hit_record.point,
            final(scattered).dir == self.direction_spec(ray_in.dir, hit_record.normal, unit),
            r == Metal::leaves_spec(final(scattered).dir, hit_record.normal),
    {
        let reflected: Vec3 = Vec3::reflect(&ray_in.dir().unit_vector(), &hit_record.normal);
        scattered.set_origin(hit_record.point);
        scattered.set_dir(reflected.add(&unit.scale(self.fuzziness)));
        *attenuation = self.albedo;
        scattered.dir().dot(&hit_record.normal).gt(Scalar::signed_zero(false))
    }

    pub fn scatter(
        &self,
        ray_in: &Ray,
        hit_record: &HitRecord,
        attenuation: &mut Color,
        scattered: &mut Ray,
        rng_gen: &mut rand::rngs::SmallRng,
    ) -> (r: bool)
        ensures
            *final(attenuation) == self.albedo,
            final(scattered).origin == hit_record.point,
            exists|point: Vec3|
                point.in_unit_sphere() && final(scattered).dir == self.direction_spec(
                    ray_in.dir,
                    hit_record.normal,
                    point.unit_vector_spec(),
                ),
            r == Metal::leaves_spec(final(scattered).dir, hit_record.normal),
    {
        let unit: Vec3 = Vec3::random_unit_vector(rng_gen);
        self.scatter_with(ray_in, hit_record, unit, attenuation, scattered)
    }
}

impl Lambertian {
    /// The direction of the ray that leaves: the normal plus a random unit
    /// vector, or the normal alone where the two nearly cancel.
    pub open spec fn direction_spec(normal: Vec3, unit: Vec3) -> Vec3 {
        let direction = normal.add_spec(unit);
        if direction.near_zero_spec() {
            normal
        } else {
            direction
        }
    }

    pub fn new(albedo: Color) -> (r: Lambertian)
        ensures
            r.albedo == albedo,
    {
        Lambertian { albedo }
    }

    /// Scatters with a given random unit vector.
    pub fn scatter_with(
        &self,
        hit_record: &HitRecord,
        unit: Vec3,
        attenuation: &mut Color,
        scattered: &mut Ray,
    ) -> (r: bool)
        ensures
            r,
            *final(attenuation) == self.albedo,
            final(scattered).origin == hit_record.point,
            final(scattered).dir == Lambertian::direction_spec(hit_record.normal, unit),
            !hit_record.normal.is_zero_vector() ==> !final(scattered).dir.is_zero_vector(),
    {
        let mut scatter_direction: Vec3 = hit_record.normal.add(&unit);
        if scatter_direction.near_zero() {
            scatter_direction = hit_record.normal;
        }
        scattered.set_origin(hit_record.point);
        scattered.set_dir(scatter_direction);
        *attenuation = self.albedo;
        true
    }

    pub fn scatter(
        &self,
        _ray_in: &Ray,
        hit_record: &HitRecord,
        attenuation: &mut Color,
        scattered: &mut Ray,
        rng_gen: &mut rand::rngs::SmallRng,
    ) -> (r: bool)
        ensures
            r,
            *final(attenuation) == self.albedo,
            final(scattered).origin == hit_record.point,
            exists|point: Vec3|
                point.in_unit_sphere() && final(scattered).dir == Lambertian::direction_spec(
                    hit_record.normal,
                    point.unit_vector_spec(),
                ),
            !hit_record.normal.is_zero_vector() ==> !final(scattered).dir.is_zero_vector(),
    {
        let unit: Vec3 = Vec3::random_unit_vector(rng_gen);
        self.scatter_with(hit_record, unit, attenuation, scattered)
    }
}

impl Dieletric {
    /// Schlick's approximation of the share of light that is reflected:
    /// with `r0 = ((1 - n) / (1 + n))²`, it is `r0 + (1 - r0)·(1 - cosine)⁵`.
    pub open spec fn reflectance_spec(cosine: Scalar, index_of_refraction: Scalar) -> Scalar {
        let one = Scalar::one_spec();
        let ratio = one.sub_spec(index_of_refraction).div_spec(one.add_spec(index_of_refraction));
        let r0 = ratio.mul_spec(ratio);
        r0.add_spec(one.sub_spec(r0).mul_spec(fifth_power_spec(one.sub_spec(cosine))))
    }

    /// The ratio of the refractive indices on the way of the ray: the
    /// inverse of the index when the ray enters, the index when it leaves.
    pub open spec fn refraction_ratio_spec(self, front_face: bool) -> Scalar {
        if front_face {
            Scalar::one_spec().div_spec(self.index_of_refraction)
        } else {
            self.index_of_refraction
        }
    }

    /// The cosine of the angle between the incoming unit direction and the
    /// normal, at most one.
    pub open spec fn cos_theta_spec(unit_direction: Vec3, normal: Vec3) -> Scalar {
        unit_direction.neg_spec().dot_spec(normal).min_spec(Scalar::one_spec())
    }

    /// Snell's law has no solution: the ratio of the indices times the sine
    /// of the angle is above one.
    pub open spec fn cannot_refract_spec(cos_theta: Scalar, refraction_ratio: Scalar) -> bool {
        let one = Scalar::one_spec();
        let sin_theta = one.sub_spec(cos_theta.mul_spec(cos_theta)).sqrt_spec();
        one.lt_spec(refraction_ratio.mul_spec(sin_theta))
    }

    /// The ray is reflected: Snell's law has no solution, or the reflectance
    /// is above the random draw.
    pub open spec fn reflects_spec(
        cos_theta: Scalar,
        refraction_ratio: Scalar,
        draw: Scalar,
    ) -> bool {
        Dieletric::cannot_refract_spec(cos_theta, refraction_ratio) || draw.lt_spec(
            Dieletric::reflectance_spec(cos_theta, refraction_ratio),
        )
    }

    /// Whether a ray that hits the surface is reflected whatever is drawn.
    pub open spec fn must_reflect_spec(
        self,
        incoming: Vec3,
        normal: Vec3,
        front_face: bool,
    ) -> bool {
        Dieletric::cannot_refract_spec(
            Dieletric::cos_theta_spec(incoming.unit_vector_spec(), normal),
            self.refraction_ratio_spec(front_face),
        )
    }

    /// The direction of the ray that leaves.
    pub open spec fn direction_spec(
        self,
        incoming: Vec3,
        normal: Vec3,
        front_face: bool,
        draw: Scalar,
    ) -> Vec3 {
        let refraction_ratio = self.refraction_ratio_spec(front_face);
        let unit_direction = incoming.unit_vector_spec();
        let cos_theta = Dieletric::cos_theta_spec(unit_direction, normal);
        if Dieletric::reflects_spec(cos_theta, refraction_ratio, draw) {
            Vec3::reflect_spec(unit_direction, normal)
        } else {
            Vec3::refract_spec(unit_direction, normal, refraction_ratio)
        }
    }

    pub fn new(index_of_refraction: Scalar) -> (r: Dieletric)
        ensures
            r.index_of_refraction == index_of_refraction,
    {
        Dieletric { index_of_refraction }
    }

    pub fn reflectance(cosine: Scalar, index_of_refraction: Scalar) -> (r: Scalar)
        ensures
            r == Dieletric::reflectance_spec(cosine, index_of_refraction),
    {
        let one: Scalar = Scalar::one();
        let mut r0: Scalar = one.sub(index_of_refraction).div(one.add(index_of_refraction));
        r0 = r0.mul(r0);
        r0.add(one.sub(r0).mul(fifth_power(one.sub(cosine))))
    }

    /// Whether a ray that hits the surface is reflected whatever is drawn.
    pub fn must_reflect(&self, ray_in: &Ray, hit_record: &HitRecord) -> (r: bool)
        ensures
            r == self.must_reflect_spec(ray_in.dir, hit_record.normal, hit_record.front_face),
    {
        let one: Scalar = Scalar::one();
        let refraction_ratio: Scalar = if hit_record.front_face {
            one.div(self.index_of_refraction)
        } else {
            self.index_of_refraction
        };
        let unit_direction: Vec3 = ray_in.dir().unit_vector();
        let cos_theta: Scalar = unit_direction.neg().dot(&hit_record.normal).min(one);
        let sin_theta: Scalar = one.sub(cos_theta.mul(cos_theta)).sqrt();
        refraction_ratio.mul(sin_theta).gt(one)
    }

    /// Scatters with a given random draw from `[0, 1)`.
    pub fn scatter_with(
        &self,
        ray_in: &Ray,
        hit_record: &HitRecord,
        draw: Scalar,
        attenuation: &mut Color,
        scattered: &mut Ray,
    ) -> (r: bool)
        ensures
            r,
            *final(attenuation) == white_spec(),
            final(scattered).origin == hit_record.point,
            final(scattered).dir == self.direction_spec(
                ray_in.dir,
                hit_record.normal,
                hit_record.front_face,
                draw,
            ),
    {
        let one: Scalar = Scalar::one();
        *attenuation = Vec3::new(one, one, one);
        let refraction_ratio: Scalar = if hit_record.front_face {
            one.div(self.index_of_refraction)
        } else {
            self.index_of_refraction
        };
        let unit_direction: Vec3 = ray_in.dir().unit_vector();
        let cos_theta: Scalar = unit_direction.neg().dot(&hit_record.normal).min(one);
        let sin_theta: Scalar = one.sub(cos_theta.mul(cos_theta)).sqrt();
        let cannot_refract: bool = refraction_ratio.mul(sin_theta).gt(one);
        let direction: Vec3 = if cannot_refract || Dieletric::reflectance(
            cos_theta,
            refraction_ratio,
        ).gt(draw) {
            Vec3::reflect(&unit_direction, &hit_record.normal)
        } else {
            Vec3::refract(&unit_direction, &hit_record.normal, refraction_ratio)
        };
        scattered.set_origin(hit_record.point);
        scattered.set_dir(direction);
        true
    }

    pub fn scatter(
        &self,
        ray_in: &Ray,
        hit_record: &HitRecord,
        attenuation: &mut Color,
        scattered: &mut Ray,
        rng_gen: &mut rand::rngs::SmallRng,
    ) -> (r: bool)
        ensures
            r,
            *final(attenuation) == white_spec(),
            final(scattered).origin == hit_record.point,
            exists|word: u64|
                final(scattered).dir == self.direction_spec(
                    ray_in.dir,
                    hit_record.normal,
                    hit_record.front_face,
                    unit_scalar_spec(word),
                ),
            self.must_reflect_spec(ray_in.dir, hit_record.normal, hit_record.front_face)
                ==> final(scattered).dir == Vec3::reflect_spec(
                ray_in.dir.unit_vector_spec(),
                hit_record.normal,
            ),
    {
        // Nothing is drawn where the ray is reflected in any case.
        let word: u64 = if self.must_reflect(ray_in, hit_record) {
            0
        } else {
            next_word(rng_gen)
        };
        self.scatter_with(ray_in, hit_record, unit_scalar(word), attenuation, scattered)
    }
}

/// A diffuse surface never sends a ray on without a direction: where the
/// normal is not the zero vector, the direction is not either.
pub proof fn lemma_lambertian_direction(normal: Vec3, unit: Vec3)
    requires
        !normal.is_zero_vector(),
    ensures
        !Lambertian::direction_spec(normal, unit).is_zero_vector(),
{
}

/// A metal without fuzziness is a mirror: for a fuzziness of zero and a
/// random vector without NaN or infinity, the ray leaves in the direction of
/// the incoming unit direction mirrored at the normal.
pub proof fn lemma_mirror(metal: Metal, incoming: Vec3, normal: Vec3, unit: Vec3)
    requires
        metal.fuzziness.is_zero(),
        unit.is_finite(),
    ensures
        metal.direction_spec(incoming, normal, unit).matches_spec(
            Vec3::reflect_spec(incoming.unit_vector_spec(), normal),
        ),
{
    let reflected = Vec3::reflect_spec(incoming.unit_vector_spec(), normal);
    lemma_mul_zero(unit.x, metal.fuzziness);
    lemma_mul_zero(unit.y, metal.fuzziness);
    lemma_mul_zero(unit.z, metal.fuzziness);
    if !reflected.x.is_nan() {
        lemma_add_zero(reflected.x, unit.x.mul_spec(metal.fuzziness));
    }
    if !reflected.y.is_nan() {
        lemma_add_zero(reflected.y, unit.y.mul_spec(metal.fuzziness));
    }
    if !reflected.z.is_nan() {
        lemma_add_zero(reflected.z, unit.z.mul_spec(metal.fuzziness));
    }
}

/// Glass of index one has the ratio one between the two sides of its
/// surface, whichever way the ray goes.
pub proof fn lemma_unit_index(glass: Dieletric, front_face: bool)
    requires
        glass.index_of_refraction == Scalar::one_spec(),
    ensures
        glass.refraction_ratio_spec(front_face) == Scalar::one_spec(),
{
    lemma_one_over_one();
}

/// With the ratio one Snell's law leaves the part of the direction that is
/// perpendicular to the normal as it is: where `uv + cos·n` has no NaN, the
/// perpendicular part of the refracted ray is that vector.
pub proof fn lemma_unit_ratio_keeps_perpendicular(uv: Vec3, n: Vec3)
    requires
        !uv.add_spec(n.scale_spec(Dieletric::cos_theta_spec(uv, n))).x.is_nan(),
        !uv.add_spec(n.scale_spec(Dieletric::cos_theta_spec(uv, n))).y.is_nan(),
        !uv.add_spec(n.scale_spec(Dieletric::cos_theta_spec(uv, n))).z.is_nan(),
    ensures
        Vec3::refract_perpendicular(uv, n, Scalar::one_spec()) == uv.add_spec(
            n.scale_spec(Dieletric::cos_theta_spec(uv, n)),
        ),
{
    let sum = uv.add_spec(n.scale_spec(Dieletric::cos_theta_spec(uv, n)));
    lemma_mul_one(sum.x);
    lemma_mul_one(sum.y);
    lemma_mul_one(sum.z);
}

impl Material {
    /// The colour by which the surface weakens the light of a ray that it
    /// scatters.
    pub open spec fn attenuation_spec(self) -> Color {
        match self {
            Material::Lambertian(lambertian) => lambertian.albedo,
            Material::Metal(metal) => metal.albedo,
            Material::Dieletric(_) => white_spec(),
        }
    }

    /// What a scattering of this surface may end with, whatever was drawn.
    pub open spec fn scattered_spec(
        self,
        ray_in: Ray,
        hit_record: HitRecord,
        leaves: bool,
        direction: Vec3,
    ) -> bool {
        match self {
            Material::Lambertian(_) => leaves && exists|point: Vec3|
                point.in_unit_sphere() && direction == Lambertian::direction_spec(
                    hit_record.normal,
                    point.unit_vector_spec(),
                ),
            Material::Metal(metal) => leaves == Metal::leaves_spec(direction, hit_record.normal)
                && exists|point: Vec3|
                point.in_unit_sphere() && direction == metal.direction_spec(
                    ray_in.dir,
                    hit_record.normal,
                    point.unit_vector_spec(),
                ),
            Material::Dieletric(dieletric) => leaves && exists|word: u64|
                direction == dieletric.direction_spec(
                    ray_in.dir,
                    hit_record.normal,
                    hit_record.front_face,
                    unit_scalar_spec(word),
                ),
        }
    }

    /// Decides whether the ray that hit the surface goes on, and how: the
    /// colour by which its light is weakened and the ray that leaves the
    /// point of the hit.
    pub fn scatter(
        &self,
        ray_in: &Ray,
        hit_record: &HitRecord,
        attenuation: &mut Color,
        scattered: &mut Ray,
        rng_gen: &mut rand::rngs::SmallRng,
    ) -> (r: bool)
        ensures
            *final(attenuation) == self.attenuation_spec(),
            final(scattered).origin == hit_record.point,
            self.scattered_spec(*ray_in, *hit_record, r, final(scattered).dir),
    {
        match self {
            Material::Lambertian(lambertian) => lambertian.scatter(
                ray_in,
                hit_record,
                attenuation,
                scattered,
                rng_gen,
            ),
            Material::Metal(metal) => metal.scatter(
                ray_in,
                hit_record,
                attenuation,
                scattered,
                rng_gen,
            ),
            Material::Dieletric(dieletric) => dieletric.scatter(
                ray_in,
                hit_record,
                attenuation,
                scattered,
                rng_gen,
            ),
        }
    }
}

} // verus!
