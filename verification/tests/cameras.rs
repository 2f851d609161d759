use rand::rngs::SmallRng;
use rand::SeedableRng;
use ray_tracing::camera::{level, sky, Camera, ConfigError};
use ray_tracing::hittable::shapes::Sphere;
use ray_tracing::hittable::{Hittable, HittableObjects};
use ray_tracing::material::{Dieletric, Lambertian, Material, Metal};
use ray_tracing::ray::Ray;
use ray_tracing::scalar::Scalar;
use ray_tracing::vec3::Vec3;

fn s(x: f64) -> Scalar {
    Scalar::from_bits(x.to_bits())
}

fn f(x: Scalar) -> f64 {
    f64::from_bits(x.to_bits())
}

fn v(x: f64, y: f64, z: f64) -> Vec3 {
    Vec3::new(s(x), s(y), s(z))
}

fn a(v: &Vec3) -> [f64; 3] {
    [f(v.x()), f(v.y()), f(v.z())]
}

fn world() -> HittableObjects {
    let mut world = HittableObjects::new();
    let ground = Material::Lambertian(Lambertian::new(v(0.8, 0.8, 0.0)));
    let glass = Material::Dieletric(Dieletric::new(s(1.5)));
    let gold = Material::Metal(Metal::new(v(0.8, 0.6, 0.2), s(0.1)));
    world.add_hittable(Hittable::Sphere(Sphere::new(v(0.0, -100.5, -1.0), s(100.0), ground)));
    world.add_hittable(Hittable::Sphere(Sphere::new(v(0.0, 0.0, -1.0), s(0.5), ground)));
    world.add_hittable(Hittable::Sphere(Sphere::new(v(-1.0, 0.0, -1.0), s(0.5), glass)));
    world.add_hittable(Hittable::Sphere(Sphere::new(v(1.0, 0.0, -1.0), s(0.5), gold)));
    world
}

fn camera(width: usize, aspect_ratio: f64) -> Camera {
    let mut camera = Camera::default();
    camera.img_width = width;
    camera.aspect_ratio = s(aspect_ratio);
    camera
}

#[test]
fn default_camera() {
    let camera = Camera::default();
    assert_eq!(camera.img_width, 1600);
    assert_eq!(camera.img_height, 900);
    assert_eq!(f(camera.aspect_ratio), 16.0 / 9.0);
    assert_eq!(camera.samples_per_pixel, 100);
    assert_eq!(camera.max_bounces, 10);
    assert_eq!(a(&camera.center), [0.0, 0.0, 0.0]);
    assert_eq!(a(&camera.pixel_0_loc), [0.0, 0.0, 0.0]);
    assert_eq!(a(&camera.pixel_delta_u), [0.0, 0.0, 0.0]);
    assert_eq!(a(&camera.pixel_delta_v), [0.0, 0.0, 0.0]);
}

#[test]
fn initialize_derives_height_and_viewport() {
    let mut camera = camera(400, 16.0 / 9.0);
    assert_eq!(camera.initialize(), Ok(()));
    assert_eq!(camera.img_height, 225);
    let viewport_width = 2.0 * (400.0 / 225.0);
    let inverse_width: f64 = 1.0 / 400.0;
    let inverse_height: f64 = 1.0 / 225.0;
    let delta_u = [viewport_width * inverse_width, 0.0 * inverse_width, 0.0 * inverse_width];
    let delta_v = [0.0 * inverse_height, -2.0 * inverse_height, 0.0 * inverse_height];
    assert_eq!(a(&camera.pixel_delta_u), delta_u);
    assert_eq!(a(&camera.pixel_delta_v), delta_v);
    let first = a(&camera.pixel_0_loc);
    let half: f64 = 1.0 / 2.0;
    let upper_left = [
        0.0 - 0.0 - viewport_width * half - 0.0 * half,
        0.0 - 0.0 - 0.0 * half - -2.0 * half,
        0.0 - 1.0 - 0.0 * half - 0.0 * half,
    ];
    assert_eq!(
        first,
        [
            upper_left[0] + (delta_u[0] + delta_v[0]) * 0.5,
            upper_left[1] + (delta_u[1] + delta_v[1]) * 0.5,
            upper_left[2] + (delta_u[2] + delta_v[2]) * 0.5
        ]
    );
    assert_eq!(first[2], -1.0);
}

#[test]
fn the_height_is_cut_off_not_rounded() {
    let cases = [
        (100usize, 1.0, 100usize),
        (100, 3.0, 33),
        (7, 2.0, 3),
        (1, 1.0, 1),
        (1600, 16.0 / 9.0, 900),
    ];
    for (width, ratio, height) in cases {
        let mut camera = camera(width, ratio);
        assert_eq!(camera.initialize(), Ok(()));
        assert_eq!(camera.img_height, height);
        assert_eq!(camera.img_height, (width as f64 / ratio) as usize);
    }
}

#[test]
fn an_image_without_a_row_is_refused() {
    let cases =
        [(1usize, 2.0), (0, 1.0), (10, 10.5), (5, f64::INFINITY), (5, f64::NAN), (5, -1.0)];
    for (width, ratio) in cases {
        let mut camera = camera(width, ratio);
        camera.img_height = 77;
        assert_eq!(camera.initialize(), Err(ConfigError::HeightBelowOne));
        assert_eq!(camera.img_height, 77);
        assert_eq!(a(&camera.pixel_delta_u), [0.0, 0.0, 0.0]);
        let mut rng = SmallRng::seed_from_u64(1);
        assert!(matches!(
            camera.render(&world(), &mut rng),
            Err(ConfigError::HeightBelowOne)
        ));
        assert!(rng == SmallRng::seed_from_u64(1));
    }
}

#[test]
fn no_bounce_left_is_black() {
    let world = world();
    let empty = HittableObjects::new();
    let rays = [
        Ray::new(v(0.0, 0.0, 0.0), v(0.0, 0.0, -1.0)),
        Ray::new(v(0.0, 0.0, 0.0), v(0.0, 1.0, 0.0)),
        Ray::new(v(5.0, 5.0, 5.0), v(-1.0, -1.0, -1.0)),
        Ray::new(v(0.0, 0.0, 0.0), v(0.0, 0.0, 0.0)),
    ];
    for ray in &rays {
        let mut rng = SmallRng::seed_from_u64(4);
        assert_eq!(a(&Camera::ray_color(ray, 0, &world, &mut rng)), [0.0, 0.0, 0.0]);
        assert_eq!(a(&Camera::ray_color(ray, 0, &empty, &mut rng)), [0.0, 0.0, 0.0]);
        assert!(rng == SmallRng::seed_from_u64(4));
    }
}

#[test]
fn a_ray_that_hits_nothing_sees_the_sky() {
    let up = Ray::new(v(0.0, 0.0, 0.0), v(0.0, 3.0, 0.0));
    assert_eq!(a(&sky(&up)), [0.5, 0.7, 1.0]);
    let down = Ray::new(v(0.0, 0.0, 0.0), v(0.0, -0.5, 0.0));
    assert_eq!(a(&sky(&down)), [1.0, 1.0, 1.0]);
    let level_ray = Ray::new(v(0.0, 0.0, 0.0), v(1.0, 0.0, 0.0));
    assert_eq!(a(&sky(&level_ray)), [0.75, 0.85, 1.0]);
    let empty = HittableObjects::new();
    let mut rng = SmallRng::seed_from_u64(4);
    for depth in [1, 2, 50] {
        assert_eq!(a(&Camera::ray_color(&up, depth, &empty, &mut rng)), [0.5, 0.7, 1.0]);
        assert_eq!(a(&Camera::ray_color(&up, depth, &world(), &mut rng)), [0.5, 0.7, 1.0]);
    }
    assert!(rng == SmallRng::seed_from_u64(4));
    let d = [0.3, 0.4, -1.2];
    let slanted = Ray::new(v(0.0, 0.0, 0.0), v(d[0], d[1], d[2]));
    let inverse = 1.0 / (d[0] * d[0] + d[1] * d[1] + d[2] * d[2]).sqrt();
    let t = (d[1] * inverse + 1.0) * 0.5;
    assert_eq!(
        a(&sky(&slanted)),
        [1.0 * (1.0 - t) + 0.5 * t, 1.0 * (1.0 - t) + 0.7 * t, 1.0 * (1.0 - t) + 1.0 * t]
    );
}

#[test]
fn one_bounce_on_a_surface_is_black() {
    let world = world();
    let ray = Ray::new(v(0.0, 0.0, 0.0), v(0.0, 0.0, -1.0));
    for seed in 0..50 {
        let mut rng = SmallRng::seed_from_u64(seed);
        assert_eq!(a(&Camera::ray_color(&ray, 1, &world, &mut rng)), [0.0, 0.0, 0.0]);
    }
}

#[test]
fn light_is_weakened_by_the_albedo() {
    let mut world = HittableObjects::new();
    let albedo = [0.8, 0.4, 0.2];
    let surface = Material::Lambertian(Lambertian::new(v(albedo[0], albedo[1], albedo[2])));
    world.add_hittable(Hittable::Sphere(Sphere::new(v(0.0, 0.0, -1.0), s(0.5), surface)));
    let ray = Ray::new(v(0.0, 0.0, 0.0), v(0.0, 0.0, -1.0));
    for seed in 0..100 {
        let mut rng = SmallRng::seed_from_u64(seed);
        let c = a(&Camera::ray_color(&ray, 2, &world, &mut rng));
        let inner = [c[0] / albedo[0], c[1] / albedo[1], c[2] / albedo[2]];
        assert!(inner[2] > 0.999999 && inner[2] < 1.000001);
        assert!(inner[0] >= 0.4999999 && inner[0] <= 1.0000001);
        assert!(inner[1] >= 0.6999999 && inner[1] <= 1.0000001);
    }
}

#[test]
fn levels_of_channels() {
    assert_eq!(level(s(1.0), s(4.0)), 128);
    assert_eq!(level(s(0.25), s(1.0)), 128);
    assert_eq!(level(s(4.0), s(4.0)), 255);
    assert_eq!(level(s(1.0e9), s(1.0)), 255);
    assert_eq!(level(s(0.0), s(1.0)), 0);
    assert_eq!(level(s(-1.0), s(1.0)), 0);
    assert_eq!(level(s(f64::NAN), s(1.0)), 0);
    assert_eq!(level(s(0.998001), s(1.0)), 255);
    assert_eq!(level(s(0.99), s(1.0)), 254);
    assert_eq!(level(s(1.0 / 65536.0), s(1.0)), 1);
    assert_eq!(level(s(1.0 / 65537.0), s(1.0)), 0);
    for (sum, samples) in [(0.3, 1.0), (17.5, 64.0), (2.0, 3.0), (0.6, 7.0)] {
        let (sum, samples): (f64, f64) = std::hint::black_box((sum, samples));
        let gamma = (sum * (1.0 / samples)).sqrt();
        let held = if gamma > 0.999 { 0.999 } else { gamma };
        assert_eq!(level(s(sum), s(samples)), (held * 256.0) as u64);
    }
}

#[test]
fn write_color_appends_three_levels() {
    let mut text = String::from(">");
    v(1.0, 4.0, 0.0).write_color(&mut text, s(4.0));
    assert_eq!(text, ">128 255 0 ");
    v(0.25, 0.0625, 100.0).write_color(&mut text, s(1.0));
    assert_eq!(text, ">128 255 0 128 64 255 ");
}

#[test]
fn rays_leave_the_centre_through_their_pixel() {
    let mut camera = camera(40, 2.0);
    camera.center = v(0.0, 0.0, 0.0);
    assert_eq!(camera.initialize(), Ok(()));
    assert_eq!(camera.img_height, 20);
    let straight = camera.ray_through(3, 7, Vec3::zeroed());
    assert_eq!(a(straight.origin()), [0.0, 0.0, 0.0]);
    let du = a(&camera.pixel_delta_u);
    let dv = a(&camera.pixel_delta_v);
    let first = a(&camera.pixel_0_loc);
    assert_eq!(
        a(straight.dir()),
        [
            dv[0] * 3.0 + du[0] * 7.0 + first[0] + 0.0 - 0.0,
            dv[1] * 3.0 + du[1] * 7.0 + first[1] + 0.0 - 0.0,
            dv[2] * 3.0 + du[2] * 7.0 + first[2] + 0.0 - 0.0
        ]
    );
    let offset = camera.sample_offset(s(0.0), s(0.75));
    assert_eq!(a(&offset), [du[0] * -0.5 + dv[0] * 0.25, du[1] * -0.5 + dv[1] * 0.25, 0.0]);
    let mut rng = SmallRng::seed_from_u64(21);
    for i in 0..20 {
        for j in 0..40 {
            let ray = camera.get_ray(i, j, &mut rng);
            assert_eq!(a(ray.origin()), [0.0, 0.0, 0.0]);
            let centre = a(camera.ray_through(i, j, Vec3::zeroed()).dir());
            let d = a(ray.dir());
            assert!((d[0] - centre[0]).abs() <= du[0] * 0.5000001);
            assert!((d[1] - centre[1]).abs() <= -dv[1] * 0.5000001);
            assert_eq!(d[2], -1.0);
            let square = a(&camera.pixel_sample_square(&mut rng));
            assert!(square[0].abs() <= du[0] * 0.5);
            assert!(square[1].abs() <= -dv[1] * 0.5);
        }
    }
}

#[test]
fn render_sets_the_camera_up() {
    let mut camera = camera(12, 1.5);
    camera.samples_per_pixel = 2;
    camera.max_bounces = 3;
    let mut rng = SmallRng::seed_from_u64(8);
    let text = camera.render(&world(), &mut rng).unwrap();
    assert_eq!(camera.img_height, 8);
    assert!(text.starts_with("P3\n12 8\n255\n"));
    let body = &text["P3\n12 8\n255\n".len()..];
    assert!(body.ends_with(' '));
    assert!(!body.contains('\n'));
    let levels: Vec<u32> = body.split_whitespace().map(|t| t.parse().unwrap()).collect();
    assert_eq!(levels.len(), 12 * 8 * 3);
    assert!(levels.iter().all(|n| *n <= 255));
    assert!(levels[..3].iter().all(|n| *n > 100));
}
