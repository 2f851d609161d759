use ray_tracing::consts::{Interval, INFINITY};
use ray_tracing::hittable::shapes::{Quadratic, Sphere};
use ray_tracing::hittable::{HitRecord, Hittable, HittableObjects};
use ray_tracing::material::{Dieletric, Lambertian, Material, Metal};
use ray_tracing::ray::Ray;
use ray_tracing::scalar::Scalar;
use ray_tracing::vec3::Vec3;

fn s(x: f64) -> Scalar {
    Scalar::from_bits(x.to_bits())
}

fn f(x: Scalar) -> f64 {
    f64::from_bits(x.to_bits())
}

fn v(x: f64, y: f64, z: f64) -> Vec3 {
    Vec3::new(s(x), s(y), s(z))
}

fn a(v: &Vec3) -> [f64; 3] {
    [f(v.x()), f(v.y()), f(v.z())]
}

fn grey() -> Material {
    Material::Lambertian(Lambertian::new(v(0.5, 0.5, 0.5)))
}

fn forward() -> Interval {
    Interval::new(s(0.001), Scalar::from_bits(INFINITY))
}

fn is_lambertian(material: &Option<Material>) -> bool {
    matches!(material, Some(Material::Lambertian(_)))
}

#[test]
fn new_record_is_empty() {
    let rec = HitRecord::new();
    assert_eq!(a(&rec.point), [0.0, 0.0, 0.0]);
    assert_eq!(a(&rec.normal), [0.0, 0.0, 0.0]);
    assert_eq!(f(rec.t), f64::MAX);
    assert!(rec.front_face);
    assert!(rec.material.is_none());
    let rec = HitRecord::default();
    assert_eq!(f(rec.t), f64::MAX);
    assert!(rec.material.is_none());
}

#[test]
fn set_face_normal_turns_the_normal_against_the_ray() {
    let ray = Ray::new(v(0.0, 0.0, 0.0), v(0.0, 0.0, -1.0));
    let mut rec = HitRecord::new();
    rec.set_face_normal(&ray, v(0.0, 0.0, 1.0));
    assert!(rec.front_face);
    assert_eq!(a(&rec.normal), [0.0, 0.0, 1.0]);
    rec.set_face_normal(&ray, v(0.0, 0.0, -1.0));
    assert!(!rec.front_face);
    assert_eq!(a(&rec.normal), [0.0, 0.0, 1.0]);
    rec.set_face_normal(&ray, v(1.0, 0.0, 0.0));
    assert!(!rec.front_face);
    assert_eq!(a(&rec.normal)[0], -1.0);
}

#[test]
fn set_params_copies_all_but_the_material() {
    let mut from = HitRecord::new();
    from.point = v(1.0, 2.0, 3.0);
    from.normal = v(0.0, 1.0, 0.0);
    from.t = s(4.5);
    from.front_face = false;
    from.material = Some(grey());
    let mut to = HitRecord::new();
    to.set_params_equal_to(&from);
    assert_eq!(a(&to.point), [1.0, 2.0, 3.0]);
    assert_eq!(a(&to.normal), [0.0, 1.0, 0.0]);
    assert_eq!(f(to.t), 4.5);
    assert!(!to.front_face);
    assert!(to.material.is_none());
}

#[test]
fn quadratic_of_a_ray_and_a_sphere() {
    let sphere = Sphere::new(v(0.0, 0.0, -1.0), s(0.5), grey());
    let ray = Ray::new(v(0.0, 0.0, 0.0), v(0.0, 0.0, -2.0));
    let q = sphere.quadratic(&ray);
    assert_eq!(f(q.a), 4.0);
    assert_eq!(f(q.half_b), -2.0);
    assert_eq!(f(q.c), 0.75);
    assert_eq!(f(q.discriminant()), 1.0);
    assert_eq!(f(q.root(forward()).unwrap()), 0.25);
    let behind = Interval::new(s(0.25), Scalar::from_bits(INFINITY));
    assert_eq!(f(q.root(behind).unwrap()), 0.75);
}

#[test]
fn a_ray_at_the_centre_hits_the_front() {
    let sphere = Sphere::new(v(0.0, 0.0, -1.0), s(0.5), grey());
    let ray = Ray::new(v(0.0, 0.0, 0.0), v(0.0, 0.0, -1.0));
    let mut rec = HitRecord::new();
    assert!(sphere.hit(&ray, forward(), &mut rec));
    assert_eq!(f(rec.t), 0.5);
    assert_eq!(a(&rec.point), [0.0, 0.0, -0.5]);
    assert_eq!(a(&rec.normal), [0.0, 0.0, 1.0]);
    assert!(rec.front_face);
    assert!(is_lambertian(&rec.material));
}

#[test]
fn rays_at_the_centre_from_outside_always_hit_the_front() {
    let mut state: u64 = 0x0123_4567_89AB_CDEF;
    let mut draw = |low: f64, high: f64| {
        state ^= state << 13;
        state ^= state >> 7;
        state ^= state << 17;
        low + (high - low) * ((state >> 11) as f64 / (1u64 << 53) as f64)
    };
    for _ in 0..2000 {
        let center = [draw(-50.0, 50.0), draw(-50.0, 50.0), draw(-50.0, 50.0)];
        let radius = draw(0.01, 10.0);
        let away = [draw(-1.0, 1.0), draw(-1.0, 1.0), draw(-1.0, 1.0)];
        let size = (away[0] * away[0] + away[1] * away[1] + away[2] * away[2]).sqrt();
        if size < 0.1 {
            continue;
        }
        let distance = radius * draw(1.01, 20.0);
        let origin = [
            center[0] + away[0] / size * distance,
            center[1] + away[1] / size * distance,
            center[2] + away[2] / size * distance,
        ];
        let stretch = draw(0.1, 5.0);
        let dir = [
            (center[0] - origin[0]) * stretch,
            (center[1] - origin[1]) * stretch,
            (center[2] - origin[2]) * stretch,
        ];
        let sphere = Sphere::new(v(center[0], center[1], center[2]), s(radius), grey());
        let ray = Ray::new(v(origin[0], origin[1], origin[2]), v(dir[0], dir[1], dir[2]));
        let mut rec = HitRecord::new();
        let wide = Interval::new(s(0.0), Scalar::from_bits(INFINITY));
        assert!(sphere.hit(&ray, wide, &mut rec));
        assert!(rec.front_face);
        let n = a(&rec.normal);
        let back = n[0] * -dir[0] + n[1] * -dir[1] + n[2] * -dir[2];
        let length = (dir[0] * dir[0] + dir[1] * dir[1] + dir[2] * dir[2]).sqrt();
        assert!((back / length - 1.0).abs() < 1.0e-9);
    }
}

#[test]
fn the_centre_lies_between_the_roots_of_a_ray_at_the_centre() {
    let mut state: u64 = 0x5DEE_CE66_D123_4567;
    let mut draw = |low: f64, high: f64| {
        state ^= state << 13;
        state ^= state >> 7;
        state ^= state << 17;
        low + (high - low) * ((state >> 11) as f64 / (1u64 << 53) as f64)
    };
    let everything = Interval::new(Scalar::infinity(true), Scalar::infinity(false));
    for round in 0..3000 {
        let scale = if round % 3 == 0 { 1.0e-6 } else if round % 3 == 1 { 1.0 } else { 1.0e9 };
        let center = [draw(-5.0, 5.0) * scale, draw(-5.0, 5.0) * scale, draw(-5.0, 5.0) * scale];
        let origin = [draw(-5.0, 5.0), draw(-5.0, 5.0), draw(-5.0, 5.0)];
        let radius = draw(0.0, 20.0);
        let sphere = Sphere::new(v(center[0], center[1], center[2]), s(radius), grey());
        let from = v(origin[0], origin[1], origin[2]);
        let ray = Ray::new(from, v(center[0], center[1], center[2]).sub(&from));
        let q = sphere.quadratic(&ray);
        assert!(f(q.discriminant()) >= 0.0);
        let near = q.root(everything).unwrap();
        assert!(f(near) <= 1.0);
        let far = match q.root(Interval::new(near, Scalar::infinity(false))) {
            Some(far) => far,
            None => near,
        };
        assert!(f(far) >= 1.0);
        assert!(f(near) <= -f(q.half_b) / f(q.a));
        assert!(-f(q.half_b) / f(q.a) <= f(far));
    }
}

#[test]
fn a_small_sphere_far_away_is_met_at_its_centre() {
    let sphere = Sphere::new(v(0.0, 0.0, -1.0e9), s(1.0), grey());
    let ray = Ray::new(v(0.0, 0.0, 0.0), v(0.0, 0.0, -1.0e9));
    let q = sphere.quadratic(&ray);
    assert_eq!(f(q.a), 1.0e18);
    assert_eq!(f(q.c), 1.0e18);
    assert_eq!(f(q.discriminant()), 0.0);
    let mut rec = HitRecord::new();
    assert!(sphere.hit(&ray, forward(), &mut rec));
    assert_eq!(f(rec.t), 1.0);
    assert_eq!(a(&rec.point), [0.0, 0.0, -1.0e9]);
    assert_eq!(a(&rec.normal), [0.0, 0.0, 0.0]);
    assert!(!rec.front_face);
}

#[test]
fn a_ray_beside_the_sphere_misses() {
    let sphere = Sphere::new(v(0.0, 0.0, -1.0), s(0.5), grey());
    let ray = Ray::new(v(0.0, 0.0, 0.0), v(0.0, 1.0, -1.0));
    assert!(f(sphere.quadratic(&ray).discriminant()) < 0.0);
    let mut rec = HitRecord::new();
    rec.t = s(7.0);
    rec.point = v(1.0, 1.0, 1.0);
    assert!(!sphere.hit(&ray, forward(), &mut rec));
    assert_eq!(f(rec.t), 7.0);
    assert_eq!(a(&rec.point), [1.0, 1.0, 1.0]);
    assert!(rec.material.is_none());
}

#[test]
fn a_sphere_behind_the_ray_is_not_hit() {
    let sphere = Sphere::new(v(0.0, 0.0, 1.0), s(0.5), grey());
    let ray = Ray::new(v(0.0, 0.0, 0.0), v(0.0, 0.0, -1.0));
    let mut rec = HitRecord::new();
    assert!(!sphere.hit(&ray, forward(), &mut rec));
}

#[test]
fn from_inside_the_far_root_counts_and_the_normal_is_turned() {
    let sphere = Sphere::new(v(0.0, 0.0, 0.0), s(2.0), grey());
    let ray = Ray::new(v(0.0, 0.0, 0.0), v(1.0, 0.0, 0.0));
    let mut rec = HitRecord::new();
    assert!(sphere.hit(&ray, forward(), &mut rec));
    assert_eq!(f(rec.t), 2.0);
    assert_eq!(a(&rec.point), [2.0, 0.0, 0.0]);
    assert!(!rec.front_face);
    assert_eq!(f(rec.normal.x()), -1.0);
}

#[test]
fn roots_on_the_bounds_of_the_interval_do_not_count() {
    let sphere = Sphere::new(v(0.0, 0.0, -1.0), s(0.5), grey());
    let ray = Ray::new(v(0.0, 0.0, 0.0), v(0.0, 0.0, -1.0));
    let mut rec = HitRecord::new();
    assert!(sphere.hit(&ray, Interval::new(s(0.5), Scalar::from_bits(INFINITY)), &mut rec));
    assert_eq!(f(rec.t), 1.5);
    assert!(!sphere.hit(&ray, Interval::new(s(0.0), s(0.5)), &mut rec));
    assert!(!sphere.hit(&ray, Interval::new(s(0.5), s(1.5)), &mut rec));
    assert!(sphere.hit(&ray, Interval::new(s(0.0), s(0.5000001)), &mut rec));
    assert_eq!(f(rec.t), 0.5);
    assert!(!sphere.hit(&ray, Interval::empty(), &mut rec));
}

#[test]
fn the_two_roots_lie_evenly_about_their_middle() {
    let mut state: u64 = 0x0F0F_1234_5678_9ABC;
    let mut draw = |low: f64, high: f64| {
        state ^= state << 13;
        state ^= state >> 7;
        state ^= state << 17;
        low + (high - low) * ((state >> 11) as f64 / (1u64 << 53) as f64)
    };
    let mut hits = 0;
    for _ in 0..4000 {
        let radius = draw(0.1, 5.0);
        let origin = [draw(-20.0, 20.0), draw(-20.0, 20.0), draw(-20.0, 20.0)];
        let distance =
            (origin[0] * origin[0] + origin[1] * origin[1] + origin[2] * origin[2]).sqrt();
        if distance <= radius * 1.001 {
            continue;
        }
        let dir = [draw(-1.0, 1.0), draw(-1.0, 1.0), draw(-1.0, 1.0)];
        let sphere = Sphere::new(v(0.0, 0.0, 0.0), s(radius), grey());
        let ray = Ray::new(v(origin[0], origin[1], origin[2]), v(dir[0], dir[1], dir[2]));
        let q: Quadratic = sphere.quadratic(&ray);
        let everything = Interval::new(Scalar::infinity(true), Scalar::infinity(false));
        match q.root(everything) {
            None => assert!(f(q.discriminant()) < 0.0),
            Some(near) => {
                assert!(f(q.discriminant()) >= 0.0);
                let after = Interval::new(near, Scalar::infinity(false));
                let middle = -f(q.half_b) / f(q.a);
                match q.root(after) {
                    Some(far) => {
                        let spread = f(far) - f(near);
                        assert!(spread > 0.0);
                        assert!(
                            ((f(near) + f(far)) / 2.0 - middle).abs()
                                <= 1.0e-9 * (1.0 + middle.abs() + spread)
                        );
                    }
                    None => assert!((f(near) - middle).abs() <= 1.0e-6 * (1.0 + middle.abs())),
                }
                hits += 1;
            }
        }
    }
    assert!(hits > 50);
}

#[test]
fn a_negative_radius_turns_the_normal_inward() {
    let rays = [
        Ray::new(v(0.0, 0.0, 0.0), v(0.0, 0.0, -1.0)),
        Ray::new(v(0.1, 0.2, 0.0), v(0.05, -0.1, -1.0)),
        Ray::new(v(0.0, 0.0, -1.0), v(0.3, 0.4, 0.5)),
        Ray::new(v(3.0, 0.0, -1.0), v(-1.0, 0.01, 0.02)),
    ];
    for ray in &rays {
        let outer = Sphere::new(v(0.0, 0.0, -1.0), s(0.4), grey());
        let inner = Sphere::new(v(0.0, 0.0, -1.0), s(-0.4), grey());
        let mut out_rec = HitRecord::new();
        let mut in_rec = HitRecord::new();
        assert!(outer.hit(ray, forward(), &mut out_rec));
        assert!(inner.hit(ray, forward(), &mut in_rec));
        assert_eq!(f(in_rec.t), f(out_rec.t));
        assert_eq!(a(&in_rec.point), a(&out_rec.point));
        assert_eq!(in_rec.front_face, !out_rec.front_face);
        assert_eq!(a(&in_rec.normal), a(&out_rec.normal));
        let centre = v(0.0, 0.0, -1.0);
        let outward = a(&out_rec.point.sub(&centre).div(s(0.4)));
        let inward = a(&in_rec.point.sub(&centre).div(s(-0.4)));
        assert_eq!(inward, [-outward[0], -outward[1], -outward[2]]);
    }
}

#[test]
fn an_empty_world_is_never_hit() {
    let mut world = HittableObjects::new();
    let ray = Ray::new(v(0.0, 0.0, 0.0), v(0.0, 0.0, -1.0));
    let mut rec = HitRecord::new();
    assert!(!world.hit(&ray, forward(), &mut rec));
    assert_eq!(f(rec.t), f64::MAX);
    world.add_hittable(Hittable::Sphere(Sphere::new(v(0.0, 0.0, -1.0), s(0.5), grey())));
    assert!(world.hit(&ray, forward(), &mut rec));
    world.clear();
    let mut rec = HitRecord::new();
    assert!(!world.hit(&ray, forward(), &mut rec));
    let world = HittableObjects::default();
    assert!(!world.hit(&ray, forward(), &mut rec));
}

#[test]
fn the_nearest_sphere_wins_in_any_order() {
    let near = Hittable::Sphere(Sphere::new(
        v(0.0, 0.0, -1.0),
        s(0.5),
        Material::Metal(Metal::new(v(0.8, 0.8, 0.8), s(0.0))),
    ));
    let middle = Hittable::Sphere(Sphere::new(v(0.0, 0.0, -3.0), s(0.5), grey()));
    let far = Hittable::Sphere(Sphere::new(
        v(0.0, 0.0, -6.0),
        s(1.0),
        Material::Dieletric(Dieletric::new(s(1.5))),
    ));
    let orders = [
        [near, middle, far],
        [near, far, middle],
        [middle, near, far],
        [middle, far, near],
        [far, near, middle],
        [far, middle, near],
    ];
    let ray = Ray::new(v(0.0, 0.0, 0.0), v(0.0, 0.0, -1.0));
    for order in &orders {
        let mut world = HittableObjects::new();
        for shape in order {
            world.add_hittable(*shape);
        }
        let mut rec = HitRecord::new();
        assert!(world.hit(&ray, forward(), &mut rec));
        assert_eq!(f(rec.t), 0.5);
        assert_eq!(a(&rec.point), [0.0, 0.0, -0.5]);
        assert!(matches!(rec.material, Some(Material::Metal(_))));
        let mut rec = HitRecord::new();
        assert!(world.hit(&ray, Interval::new(s(1.6), s(100.0)), &mut rec));
        assert_eq!(f(rec.t), 2.5);
        assert!(is_lambertian(&rec.material));
        let mut rec = HitRecord::new();
        assert!(world.hit(&ray, Interval::new(s(3.6), s(100.0)), &mut rec));
        assert_eq!(f(rec.t), 5.0);
        assert!(matches!(rec.material, Some(Material::Dieletric(_))));
        let mut rec = HitRecord::new();
        assert!(!world.hit(&ray, Interval::new(s(7.0), s(100.0)), &mut rec));
        assert!(rec.material.is_none());
        assert_eq!(f(rec.t), f64::MAX);
    }
}

#[test]
fn a_shape_is_hit_as_its_sphere_is() {
    let sphere = Sphere::new(v(0.0, 0.0, -1.0), s(0.5), grey());
    let shape = Hittable::Sphere(sphere);
    let ray = Ray::new(v(0.0, 0.1, 0.0), v(0.0, 0.0, -1.0));
    let mut first = HitRecord::new();
    let mut second = HitRecord::new();
    assert!(sphere.hit(&ray, forward(), &mut first));
    assert!(shape.hit(&ray, forward(), &mut second));
    assert_eq!(f(first.t), f(second.t));
    assert_eq!(a(&first.normal), a(&second.normal));
}
