//! The camera: rays through the pixels, the colour that a ray sees, and the
//! rendering of a scene as text.
use crate::consts::{Interval, INFINITY};
use crate::convert::{HALF_BITS, TWO_BITS};
use crate::exact::{
    lemma_finite_parts, lemma_parts_of, lemma_rounded_below, lemma_rounded_exact,
    lemma_rounded_sign, lemma_whole_part_below,
};
use crate::hittable::{nearest_hit, HitRecord, Hittable, HittableObjects};
use crate::image::{header_text, push_header};
use crate::lerp_spec;
use crate::material::{white_spec, Material};
use crate::random::{next_word, unit_scalar, unit_scalar_spec};
use crate::ray::Ray;
use crate::scalar::{Scalar, HIDDEN_BIT, MIN_EXPONENT};
use crate::text::{decimal, lemma_decimal_on_one_line, on_one_line, push_char, push_decimal};
use crate::vec3::{Color, Point3, Vec3};
use vstd::arithmetic::div_mod::{lemma_fundamental_div_mod, lemma_fundamental_div_mod_converse};
use vstd::arithmetic::power2::{lemma2_to64, lemma2_to64_rest, lemma_pow2_adds, pow2};
use vstd::prelude::*;

verus! {

/// The encoding of `0.001`: hits nearer to the origin of a ray than this are
/// passed over, so that a ray does not hit the surface that it leaves.
pub const NEAR_BITS: u64 = 0x3F50_624D_D2F1_A9FC;

/// The encoding of `0.999`, the largest channel that is written.
pub const BRIGHTEST_BITS: u64 = 0x3FEF_F7CE_D916_872B;

/// The encoding of `256.0`: a channel is written as the whole part of
/// `256` times its value, which is at most 255 for a channel of `0.999`.
pub const LEVELS_BITS: u64 = 0x4070_0000_0000_0000;

/// The largest level of a channel, as the header names it.
pub const MAX_LEVEL: u32 = 255;

/// The encoding of `-0.5`.
pub const MINUS_HALF_BITS: u64 = 0xBFE0_0000_0000_0000;

/// The encoding of `-2.0`, the height of the viewport, downward.
pub const MINUS_TWO_BITS: u64 = 0xC000_0000_0000_0000;

/// The encoding of `0.7`.
pub const SKY_GREEN_BITS: u64 = 0x3FE6_6666_6666_6666;

/// The encoding of `16 / 9`.
pub const WIDE_BITS: u64 = 0x3FFC_71C7_1C71_C71C;

/// Why a camera cannot render.
#[derive(Clone, Copy, Debug, PartialEq, Eq)]
pub enum ConfigError {
    /// Width and aspect ratio give an image of no row.
    HeightBelowOne,
}

pub struct Camera {
    pub aspect_ratio: Scalar,
    pub img_width: usize,
    pub img_height: usize,
    pub center: Point3,
    pub pixel_0_loc: Point3,
    pub pixel_delta_u: Vec3,
    pub pixel_delta_v: Vec3,
    pub samples_per_pixel: u32,
    pub max_bounces: u32,
}

/// The colour of the sky straight above.
pub open spec fn light_blue() -> Color {
    Vec3 {
        x: Scalar { bits: HALF_BITS },
        y: Scalar { bits: SKY_GREEN_BITS },
        z: Scalar::one_spec(),
    }
}

/// The colour of the sky in the direction of a ray: from white at the
/// bottom to light blue at the top, by `0.5·(y + 1)` of the unit direction.
pub open spec fn sky_spec(ray: Ray) -> Color {
    let a = ray.dir.unit_vector_spec().y.add_spec(Scalar::one_spec()).mul_spec(
        Scalar { bits: HALF_BITS },
    );
    lerp_spec(a, white_spec(), light_blue())
}

/// One channel as it is written: the mean of the samples, its square root,
/// held to `[0, 0.999]`, times 256, the fraction dropped.
pub open spec fn level_spec(sum: Scalar, samples_per_pixel: Scalar) -> u64 {
    let mean = sum.mul_spec(Scalar::one_spec().div_spec(samples_per_pixel));
    let held = (Interval {
        min: Scalar { bits: 0 },
        max: Scalar { bits: BRIGHTEST_BITS },
    }).clamp_spec(mean.sqrt_spec());
    held.mul_spec(Scalar { bits: LEVELS_BITS }).to_u64_spec()
}

/// The text of one pixel: its three levels, a space after each.
pub open spec fn triple_text(sum: Color, samples_per_pixel: Scalar) -> Seq<char> {
    decimal(level_spec(sum.x, samples_per_pixel) as nat) + seq![' '] + decimal(
        level_spec(sum.y, samples_per_pixel) as nat,
    ) + seq![' '] + decimal(level_spec(sum.z, samples_per_pixel) as nat) + seq![' ']
}

/// The texts of the pixels, one after the other.
pub open spec fn triples_text(sums: Seq<Color>, samples_per_pixel: Scalar) -> Seq<char>
    decreases sums.len(),
{
    if sums.len() == 0 {
        Seq::empty()
    } else {
        triples_text(sums.drop_last(), samples_per_pixel) + triple_text(
            sums.last(),
            samples_per_pixel,
        )
    }
}

/// The pixels of a rendering stand on one line: no line ends after the
/// header.
pub proof fn lemma_triples_on_one_line(sums: Seq<Color>, samples_per_pixel: Scalar)
    ensures
        on_one_line(triples_text(sums, samples_per_pixel)),
    decreases sums.len(),
{
    if sums.len() > 0 {
        lemma_triples_on_one_line(sums.drop_last(), samples_per_pixel);
        let last = sums.last();
        lemma_decimal_on_one_line(level_spec(last.x, samples_per_pixel) as nat);
        lemma_decimal_on_one_line(level_spec(last.y, samples_per_pixel) as nat);
        lemma_decimal_on_one_line(level_spec(last.z, samples_per_pixel) as nat);
    }
}

/// The header of a rendering is three lines: the token `P3`, then width and
/// height with a space between them, then the largest level, each ended by
/// a line feed that is the only one in its line.
pub proof fn lemma_header_lines(width: nat, height: nat)
    ensures
        header_text("P3"@, width, height, MAX_LEVEL as nat) == seq!['P', '3'] + seq!['\n'] + (
        decimal(width) + seq![' '] + decimal(height)) + seq!['\n'] + decimal(MAX_LEVEL as nat)
            + seq!['\n'],
        on_one_line(seq!['P', '3']),
        on_one_line(decimal(width) + seq![' '] + decimal(height)),
        on_one_line(decimal(MAX_LEVEL as nat)),
{
    reveal_strlit("P3");
    lemma_decimal_on_one_line(width);
    lemma_decimal_on_one_line(height);
    lemma_decimal_on_one_line(MAX_LEVEL as nat);
    assert("P3"@ =~= seq!['P', '3']);
    assert(header_text("P3"@, width, height, MAX_LEVEL as nat) =~= seq!['P', '3'] + seq!['\n'] + (
    decimal(width) + seq![' '] + decimal(height)) + seq!['\n'] + decimal(MAX_LEVEL as nat)
        + seq!['\n']);
}

/// A scalar from zero to `0.999`, times 256, has a whole part of at most
/// 255.
pub proof fn lemma_held_level(held: Scalar)
    requires
        !held.is_nan() ==> 0 <= held.rank() <= BRIGHTEST_BITS,
    ensures
        held.mul_spec(Scalar { bits: LEVELS_BITS }).to_u64_spec() <= MAX_LEVEL,
{
    reveal(Scalar::mul_spec);
    lemma2_to64();
    lemma2_to64_rest();
    let h = HIDDEN_BIT as int;
    let levels = Scalar { bits: LEVELS_BITS };
    assert(levels.magnitude() == 1031 * h);
    assert(levels.exponent_field() == 1031);
    assert(levels.fraction() == 0);
    assert(levels.significand() == h);
    assert(levels.exponent() == -44);
    let product = held.mul_spec(levels);
    if !held.is_nan() {
        lemma_finite_parts(held);
        let m = held.significand();
        let ex = held.exponent();
        lemma_rounded_sign(held.negative(), m * levels.significand(), ex + levels.exponent());
        if !held.negative() {
            if m == 0 {
                assert(m * levels.significand() == 0) by (nonlinear_arith)
                    requires
                        m == 0,
                ;
                assert(product == Scalar { bits: 0 });
                lemma_whole_part_below(product, 8);
            } else if m >= h {
                assert(ex <= -53) by (nonlinear_arith)
                    requires
                        (ex - MIN_EXPONENT) * h + m <= BRIGHTEST_BITS,
                        m >= h,
                        h == 0x0010_0000_0000_0000,
                        BRIGHTEST_BITS == 0x3FEF_F7CE_D916_872B,
                        MIN_EXPONENT == -1074,
                ;
                lemma_rounded_exact(false, m, ex + 8, 52);
                lemma_parts_of(false, m, ex + 8);
                lemma_whole_part_below(product, 8);
            } else {
                lemma_pow2_adds(52, 52);
                assert(m * h < pow2(52) * pow2(52)) by (nonlinear_arith)
                    requires
                        m < h,
                        h == pow2(52),
                        h > 0,
                ;
                lemma_rounded_below(false, m * levels.significand(), ex - 44, 104);
                assert(product.magnitude() <= 9 * h);
                lemma_fundamental_div_mod(product.magnitude() as int, h);
                assert(product.exponent_field() <= 9) by (nonlinear_arith)
                    requires
                        product.magnitude() <= 9 * h,
                        product.magnitude() == h * product.exponent_field() + product.fraction(),
                        0 <= product.fraction(),
                        h > 0,
                ;
                lemma_whole_part_below(product, 8);
            }
        }
    }
}

/// Every level is at most the largest one that the header names.
pub proof fn lemma_level_bound(sum: Scalar, samples_per_pixel: Scalar)
    ensures
        level_spec(sum, samples_per_pixel) <= MAX_LEVEL,
{
    let mean = sum.mul_spec(Scalar::one_spec().div_spec(samples_per_pixel));
    let held = (Interval {
        min: Scalar { bits: 0 },
        max: Scalar { bits: BRIGHTEST_BITS },
    }).clamp_spec(mean.sqrt_spec());
    lemma_held_level(held);
}

/// The level at which one channel of a pixel is written, for the sum of
/// its samples and their number.
pub fn level(sum: Scalar, samples_per_pixel: Scalar) -> (r: u64)
    ensures
        r == level_spec(sum, samples_per_pixel),
        r <= MAX_LEVEL,
{
    proof {
        lemma_level_bound(sum, samples_per_pixel);
    }
    let scale: Scalar = Scalar::one().div(samples_per_pixel);
    let gamma: Scalar = crate::linear_space_to_gamma_space(sum.mul(scale));
    let intensity: Interval = Interval::new(
        Scalar::signed_zero(false),
        Scalar::from_bits(BRIGHTEST_BITS),
    );
    intensity.clamp(gamma).mul(Scalar::from_bits(LEVELS_BITS)).to_u64()
}

impl Vec3 {
    /// Appends the pixel whose samples add up to this colour.
    pub fn write_color(&self, buffer: &mut String, samples_per_pixel: Scalar)
        ensures
            final(buffer)@ == old(buffer)@ + triple_text(*self, samples_per_pixel),
    {
        push_decimal(buffer, level(self.x, samples_per_pixel));
        push_char(buffer, ' ');
        push_decimal(buffer, level(self.y, samples_per_pixel));
        push_char(buffer, ' ');
        push_decimal(buffer, level(self.z, samples_per_pixel));
        push_char(buffer, ' ');
        proof {
            assert(buffer@ =~= old(buffer)@ + triple_text(*self, samples_per_pixel));
        }
    }
}

/// The colour of the sky in the direction of a ray.
pub fn sky(ray: &Ray) -> (r: Color)
    ensures
        r == sky_spec(*ray),
{
    let unit_direction: Vec3 = ray.dir().unit_vector();
    let a: Scalar = unit_direction.y().add(Scalar::one()).mul(Scalar::half());
    crate::lerp(
        a,
        Vec3::new(Scalar::one(), Scalar::one(), Scalar::one()),
        Vec3::new(Scalar::half(), Scalar::from_bits(SKY_GREEN_BITS), Scalar::one()),
    )
}

/// Whether `colour` is a light that may arrive along `ray` when it is
/// followed over at most `depth` bounces, whatever is drawn on the way:
/// black when no bounce is left; the sky where the ray hits nothing; black
/// where the surface that it hits may take it up; else a light that may
/// arrive along a ray that the surface may scatter, weakened by the
/// surface.
pub open spec fn may_see(ray: Ray, depth: nat, world: Seq<Hittable>, colour: Color) -> bool
    decreases depth,
{
    if depth == 0 {
        colour == Vec3::zeroed_spec()
    } else {
        match nearest_hit(world, ray, Scalar { bits: NEAR_BITS }, Scalar { bits: INFINITY }) {
            None => colour == sky_spec(ray),
            Some(rec) => match rec.material {
                None => false,
                Some(material) => {
                    ||| (colour == Vec3::zeroed_spec() && (exists|direction: Vec3| #[trigger]
                        material.scattered_spec(ray, rec, false, direction)))
                    ||| (exists|direction: Vec3, inner: Color|
                        #![trigger
                            material.scattered_spec(ray, rec, true, direction),
                            material.attenuation_spec().mul_spec(inner)]
                        material.scattered_spec(ray, rec, true, direction) && may_see(
                            Ray { origin: rec.point, dir: direction },
                            (depth - 1) as nat,
                            world,
                            inner,
                        ) && colour == material.attenuation_spec().mul_spec(inner))
                },
            },
        }
    }
}

/// A hit that a walk over shapes ends with names the surface that was hit.
pub proof fn lemma_hit_names_material(objects: Seq<Hittable>, ray: Ray, min: Scalar, max: Scalar)
    ensures
        nearest_hit(objects, ray, min, max).is_some() ==> nearest_hit(
            objects,
            ray,
            min,
            max,
        ).unwrap().material.is_some(),
    decreases objects.len(),
{
    if objects.len() > 0 {
        lemma_hit_names_material(objects.drop_last(), ray, min, max);
    }
}

impl Camera {
    /// The number of rows: the width divided by the aspect ratio, the
    /// fraction dropped.
    pub open spec fn height_spec(self) -> usize {
        Scalar::from_int_spec(self.img_width as nat).div_spec(self.aspect_ratio).to_usize_spec()
    }

    /// The width of the viewport, whose height is two: twice the width of
    /// the image over its height.
    pub open spec fn viewport_width_spec(self) -> Scalar {
        (Scalar { bits: TWO_BITS }).mul_spec(
            Scalar::from_int_spec(self.img_width as nat).div_spec(
                Scalar::from_int_spec(self.height_spec() as nat),
            ),
        )
    }

    pub open spec fn viewport_u_spec(self) -> Vec3 {
        Vec3 { x: self.viewport_width_spec(), y: Scalar { bits: 0 }, z: Scalar { bits: 0 } }
    }

    pub open spec fn viewport_v_spec() -> Vec3 {
        Vec3 { x: Scalar { bits: 0 }, y: Scalar { bits: MINUS_TWO_BITS }, z: Scalar { bits: 0 } }
    }

    /// The step from a pixel to the next one in its row.
    pub open spec fn delta_u_spec(self) -> Vec3 {
        self.viewport_u_spec().div_spec(Scalar::from_int_spec(self.img_width as nat))
    }

    /// The step from a pixel to the one below it.
    pub open spec fn delta_v_spec(self) -> Vec3 {
        Camera::viewport_v_spec().div_spec(Scalar::from_int_spec(self.height_spec() as nat))
    }

    /// The centre of the first pixel: from the camera one focal length
    /// forward, half a viewport to the left and up, and half a pixel in.
    pub open spec fn first_pixel_spec(self) -> Point3 {
        let two = Scalar { bits: TWO_BITS };
        let forward = Vec3 { x: Scalar { bits: 0 }, y: Scalar { bits: 0 }, z: Scalar::one_spec() };
        let upper_left = self.center.sub_spec(forward).sub_spec(
            self.viewport_u_spec().div_spec(two),
        ).sub_spec(Camera::viewport_v_spec().div_spec(two));
        upper_left.add_spec(
            self.delta_u_spec().add_spec(self.delta_v_spec()).scale_spec(
                Scalar { bits: HALF_BITS },
            ),
        )
    }

    /// The camera with everything derived that a rendering needs.
    pub open spec fn initialized_spec(self) -> Camera {
        Camera {
            img_height: self.height_spec(),
            pixel_delta_u: self.delta_u_spec(),
            pixel_delta_v: self.delta_v_spec(),
            pixel_0_loc: self.first_pixel_spec(),
            ..self
        }
    }

    /// The offset of a sample from the centre of its pixel, for two draws
    /// from `[0, 1)`: each moved to `[-0.5, 0.5)` and taken along one of the
    /// two steps.
    pub open spec fn sample_offset_spec(self, draw_x: Scalar, draw_y: Scalar) -> Vec3 {
        let minus_half = Scalar { bits: MINUS_HALF_BITS };
        self.pixel_delta_u.scale_spec(minus_half.add_spec(draw_x)).add_spec(
            self.pixel_delta_v.scale_spec(minus_half.add_spec(draw_y)),
        )
    }

    /// The ray from the camera through the pixel of row `i` and column `j`,
    /// moved by `offset`.
    pub open spec fn ray_through_spec(self, i: usize, j: usize, offset: Vec3) -> Ray {
        let pixel_center = self.pixel_delta_v.scale_spec(Scalar::from_int_spec(i as nat)).add_spec(
            self.pixel_delta_u.scale_spec(Scalar::from_int_spec(j as nat)),
        ).add_spec(self.pixel_0_loc);
        Ray { origin: self.center, dir: pixel_center.add_spec(offset).sub_spec(self.center) }
    }

    /// Whether `sum` is what `count` samples of the pixel of row `i` and
    /// column `j` may add up to, whatever is drawn: each sample is a light
    /// that may arrive along a ray through a point of the pixel.
    pub open spec fn may_sum(
        self,
        i: usize,
        j: usize,
        world: Seq<Hittable>,
        count: nat,
        sum: Color,
    ) -> bool
        decreases count,
    {
        if count == 0 {
            sum == Vec3::zeroed_spec()
        } else {
            exists|before: Color, words: (u64, u64), colour: Color|
                #![trigger
                    before.add_spec(colour),
                    may_see(
                        self.ray_through_spec(
                            i,
                            j,
                            self.sample_offset_spec(
                                unit_scalar_spec(words.0),
                                unit_scalar_spec(words.1),
                            ),
                        ),
                        self.max_bounces as nat,
                        world,
                        colour,
                    )]
                self.may_sum(i, j, world, (count - 1) as nat, before) && may_see(
                    self.ray_through_spec(
                        i,
                        j,
                        self.sample_offset_spec(
                            unit_scalar_spec(words.0),
                            unit_scalar_spec(words.1),
                        ),
                    ),
                    self.max_bounces as nat,
                    world,
                    colour,
                ) && sum == before.add_spec(colour)
        }
    }

    /// Whether `sums` holds, row by row from the first pixel on, what
    /// pixels of the camera may add up to.
    pub open spec fn may_fill(self, world: Seq<Hittable>, sums: Seq<Color>) -> bool {
        forall|k: int|
            0 <= k < sums.len() ==> self.may_sum(
                (k / self.img_width as int) as usize,
                (k % self.img_width as int) as usize,
                world,
                self.samples_per_pixel as nat,
                #[trigger] sums[k],
            )
    }

    /// Whether `sums` holds, row by row, what the pixels of an image of
    /// the camera may add up to.
    pub open spec fn may_render(self, world: Seq<Hittable>, sums: Seq<Color>) -> bool {
        sums.len() == self.img_width * self.img_height && self.may_fill(world, sums)
    }

    /// Derives the height of the image and the geometry of the viewport.
    /// Fails, and changes nothing, when the image would have no row.
    pub fn initialize(&mut self) -> (r: Result<(), ConfigError>)
        ensures
            old(self).height_spec() >= 1 ==> r.is_ok() && *final(self) == old(
                self,
            ).initialized_spec(),
            old(self).height_spec() < 1 ==> r == Err::<(), ConfigError>(
                ConfigError::HeightBelowOne,
            ) && *final(self) == *old(self),
    {
        let width: Scalar = Scalar::from_usize(self.img_width);
        let img_height: usize = width.div(self.aspect_ratio).to_usize();
        if img_height < 1 {
            return Err(ConfigError::HeightBelowOne);
        }
        let height: Scalar = Scalar::from_usize(img_height);
        let zero: Scalar = Scalar::signed_zero(false);
        let viewport_width: Scalar = Scalar::two().mul(width.div(height));
        let viewport_u: Vec3 = Vec3::new(viewport_width, zero, zero);
        let viewport_v: Vec3 = Vec3::new(zero, Scalar::from_bits(MINUS_TWO_BITS), zero);
        let pixel_delta_u: Vec3 = viewport_u.div(width);
        let pixel_delta_v: Vec3 = viewport_v.div(height);
        let viewport_upper_left: Point3 = self.center.sub(
            &Vec3::new(zero, zero, Scalar::one()),
        ).sub(&viewport_u.div(Scalar::two())).sub(&viewport_v.div(Scalar::two()));
        self.img_height = img_height;
        self.pixel_delta_u = pixel_delta_u;
        self.pixel_delta_v = pixel_delta_v;
        self.pixel_0_loc = viewport_upper_left.add(
            &pixel_delta_u.add(&pixel_delta_v).scale(Scalar::half()),
        );
        Ok(())
    }

    /// The offset of a sample from the centre of its pixel, for two draws.
    pub fn sample_offset(&self, draw_x: Scalar, draw_y: Scalar) -> (r: Vec3)
        ensures
            r == self.sample_offset_spec(draw_x, draw_y),
    {
        let point_x: Scalar = Scalar::from_bits(MINUS_HALF_BITS).add(draw_x);
        let point_y: Scalar = Scalar::from_bits(MINUS_HALF_BITS).add(draw_y);
        self.pixel_delta_u.scale(point_x).add(&self.pixel_delta_v.scale(point_y))
    }

    /// A random offset inside the square of one pixel.
    pub fn pixel_sample_square(&self, rng_gen: &mut rand::rngs::SmallRng) -> (r: Vec3)
        ensures
            exists|words: (u64, u64)|
                r == self.sample_offset_spec(
                    unit_scalar_spec(words.0),
                    unit_scalar_spec(words.1),
                ),
    {
        let a: u64 = next_word(rng_gen);
        let b: u64 = next_word(rng_gen);
        let r: Vec3 = self.sample_offset(unit_scalar(a), unit_scalar(b));
        proof {
            let words = (a, b);
            assert(r == self.sample_offset_spec(
                unit_scalar_spec(words.0),
                unit_scalar_spec(words.1),
            ));
        }
        r
    }

    /// The ray through the pixel of row `i` and column `j`, moved by
    /// `offset`.
    pub fn ray_through(&self, i: usize, j: usize, offset: Vec3) -> (r: Ray)
        ensures
            r == self.ray_through_spec(i, j, offset),
    {
        let pixel_center: Vec3 = self.pixel_delta_v.scale(Scalar::from_usize(i)).add(
            &self.pixel_delta_u.scale(Scalar::from_usize(j)),
        ).add(&self.pixel_0_loc);
        let pixel_sample: Vec3 = pixel_center.add(&offset);
        let ray_dir: Vec3 = pixel_sample.sub(&self.center);
        Ray::new(self.center, ray_dir)
    }

    /// A ray through a random point of the pixel of row `i` and column `j`.
    pub fn get_ray(&self, i: usize, j: usize, rng_gen: &mut rand::rngs::SmallRng) -> (r: Ray)
        ensures
            exists|words: (u64, u64)|
                r == self.ray_through_spec(
                    i,
                    j,
                    self.sample_offset_spec(unit_scalar_spec(words.0), unit_scalar_spec(words.1)),
                ),
    {
        let offset: Vec3 = self.pixel_sample_square(rng_gen);
        self.ray_through(i, j, offset)
    }

    /// The light that arrives along `ray`, followed over at most `depth`
    /// bounces: black when no bounce is left; the sky where the ray hits
    /// nothing; black where the surface that it hits takes it up; else the
    /// light along the scattered ray, weakened by the surface.
    pub fn ray_color(
        ray: &Ray,
        depth: u32,
        world: &HittableObjects,
        rng_gen: &mut rand::rngs::SmallRng,
    ) -> (r: Color)
        ensures
            depth == 0 ==> r == Vec3::zeroed_spec(),
            may_see(*ray, depth as nat, world.hittables_vec@, r),
        decreases depth,
    {
        if depth == 0 {
            return Vec3::zeroed();
        }
        let mut hit_record: HitRecord = HitRecord::new();
        if world.hit(
            ray,
            Interval::new(Scalar::from_bits(NEAR_BITS), Scalar::from_bits(INFINITY)),
            &mut hit_record,
        ) {
            proof {
                lemma_hit_names_material(
                    world.hittables_vec@,
                    *ray,
                    Scalar { bits: NEAR_BITS },
                    Scalar { bits: INFINITY },
                );
            }
            let mut scattered: Ray = Ray::new(Vec3::zeroed(), Vec3::zeroed());
            let mut attenuation: Color = Vec3::zeroed();
            let material: Material = hit_record.material.unwrap();
            if material.scatter(ray, &hit_record, &mut attenuation, &mut scattered, rng_gen) {
                let inner: Color = Camera::ray_color(&scattered, depth - 1, world, rng_gen);
                let colour: Color = attenuation.mul(&inner);
                proof {
                    assert(scattered == (Ray { origin: hit_record.point, dir: scattered.dir }));
                }
                return colour;
            }
            proof {
                assert(material.scattered_spec(*ray, hit_record, false, scattered.dir));
            }
            return Vec3::zeroed();
        }
        sky(ray)
    }

    /// Renders the scene: the three header lines, then the pixels row by
    /// row from the top, each the mean of `samples_per_pixel` rays. Fails
    /// when the image would have no row.
    pub fn render(&mut self, world: &HittableObjects, rng_gen: &mut rand::rngs::SmallRng) -> (r:
        Result<String, ConfigError>)
        ensures
            old(self).height_spec() < 1 ==> r == Err::<String, ConfigError>(
                ConfigError::HeightBelowOne,
            ) && *final(self) == *old(self),
            old(self).height_spec() >= 1 ==> r.is_ok() && *final(self) == old(
                self,
            ).initialized_spec() && exists|sums: Seq<Color>|
                final(self).may_render(world.hittables_vec@, sums) && r.unwrap()@ == header_text(
                    "P3"@,
                    final(self).img_width as nat,
                    final(self).img_height as nat,
                    MAX_LEVEL as nat,
                ) + #[trigger] triples_text(
                    sums,
                    Scalar::from_int_spec(final(self).samples_per_pixel as nat),
                ),
    {
        let samples_per_pixel: Scalar = Scalar::from_u32(self.samples_per_pixel);
        match self.initialize() {
            Ok(()) => {},
            Err(e) => {
                return Err(e);
            },
        }
        let mut text: String = String::new();
        push_header(&mut text, "P3", self.img_width, self.img_height, MAX_LEVEL);
        let ghost header = text@;
        let ghost mut sums: Seq<Color> = Seq::empty();
        let mut i: usize = 0;
        proof {
            assert(header =~= header_text(
                "P3"@,
                self.img_width as nat,
                self.img_height as nat,
                MAX_LEVEL as nat,
            ));
        }
        while i < self.img_height
            invariant
                *self == old(self).initialized_spec(),
                samples_per_pixel == Scalar::from_int_spec(self.samples_per_pixel as nat),
                i <= self.img_height,
                sums.len() == i * self.img_width,
                self.may_fill(world.hittables_vec@, sums),
                text@ == header + triples_text(sums, samples_per_pixel),
            decreases self.img_height - i,
        {
            let mut j: usize = 0;
            while j < self.img_width
                invariant
                    *self == old(self).initialized_spec(),
                    samples_per_pixel == Scalar::from_int_spec(self.samples_per_pixel as nat),
                    i < self.img_height,
                    j <= self.img_width,
                    sums.len() == i * self.img_width + j,
                    self.may_fill(world.hittables_vec@, sums),
                    text@ == header + triples_text(sums, samples_per_pixel),
                decreases self.img_width - j,
            {
                let mut pixel_color: Color = Vec3::zeroed();
                let mut k: u32 = 0;
                while k < self.samples_per_pixel
                    invariant
                        *self == old(self).initialized_spec(),
                        k <= self.samples_per_pixel,
                        self.may_sum(i, j, world.hittables_vec@, k as nat, pixel_color),
                    decreases self.samples_per_pixel - k,
                {
                    let ghost before = pixel_color;
                    let ray: Ray = self.get_ray(i, j, rng_gen);
                    let colour: Color = Camera::ray_color(&ray, self.max_bounces, world, rng_gen);
                    pixel_color.add_assign(colour);
                    proof {
                        let words = choose|words: (u64, u64)|
                            ray == self.ray_through_spec(
                                i,
                                j,
                                self.sample_offset_spec(
                                    unit_scalar_spec(words.0),
                                    unit_scalar_spec(words.1),
                                ),
                            );
                        assert(may_see(
                            self.ray_through_spec(
                                i,
                                j,
                                self.sample_offset_spec(
                                    unit_scalar_spec(words.0),
                                    unit_scalar_spec(words.1),
                                ),
                            ),
                            self.max_bounces as nat,
                            world.hittables_vec@,
                            colour,
                        ));
                        assert(pixel_color == before.add_spec(colour));
                    }
                    k = k + 1;
                }
                pixel_color.write_color(&mut text, samples_per_pixel);
                proof {
                    let grown = sums.push(pixel_color);
                    let at = sums.len() as int;
                    assert(grown.drop_last() =~= sums);
                    assert(text@ =~= header + triples_text(grown, samples_per_pixel));
                    lemma_fundamental_div_mod_converse(
                        at,
                        self.img_width as int,
                        i as int,
                        j as int,
                    );
                    assert forall|k: int| 0 <= k < grown.len() implies self.may_sum(
                        (k / self.img_width as int) as usize,
                        (k % self.img_width as int) as usize,
                        world.hittables_vec@,
                        self.samples_per_pixel as nat,
                        #[trigger] grown[k],
                    ) by {
                        if k < at {
                            assert(grown[k] == sums[k]);
                        }
                    }
                    sums = grown;
                }
                j = j + 1;
            }
            proof {
                assert((i + 1) * self.img_width == i * self.img_width + self.img_width)
                    by (nonlinear_arith);
            }
            i = i + 1;
        }
        proof {
            assert(self.img_height * self.img_width == self.img_width * self.img_height)
                by (nonlinear_arith);
        }
        Ok(text)
    }
}

impl Default for Camera {
    fn default() -> (r: Camera)
        ensures
            r.img_width == 1600,
            r.img_height == 900,
            r.aspect_ratio.bits == WIDE_BITS,
            r.samples_per_pixel == 100,
            r.max_bounces == 10,
            r.center == Vec3::zeroed_spec(),
            r.pixel_0_loc == Vec3::zeroed_spec(),
            r.pixel_delta_u == Vec3::zeroed_spec(),
            r.pixel_delta_v == Vec3::zeroed_spec(),
    {
        Camera {
            img_width: 1600,
            aspect_ratio: Scalar::from_bits(WIDE_BITS),
            img_height: 900,
            center: Vec3::zeroed(),
            pixel_0_loc: Vec3::zeroed(),
            pixel_delta_u: Vec3::zeroed(),
            pixel_delta_v: Vec3::zeroed(),
            samples_per_pixel: 100,
            max_bounces: 10,
        }
    }
}

} // verus!
