use rand::rngs::SmallRng;
use rand::{Rng, SeedableRng};
use ray_tracing::camera::Camera;
use ray_tracing::hittable::shapes::Sphere;
use ray_tracing::hittable::{Hittable, HittableObjects};
use ray_tracing::material::{Dieletric, Lambertian, Material, Metal};
use ray_tracing::scalar::Scalar;
use ray_tracing::vec3::Vec3;

// A renderer on the machine's own binary64 numbers, to compare with.

type V = [f64; 3];

fn add(a: V, b: V) -> V {
    [a[0] + b[0], a[1] + b[1], a[2] + b[2]]
}

fn sub(a: V, b: V) -> V {
    [a[0] - b[0], a[1] - b[1], a[2] - b[2]]
}

fn times(a: V, b: V) -> V {
    [a[0] * b[0], a[1] * b[1], a[2] * b[2]]
}

fn scale(a: V, s: f64) -> V {
    [a[0] * s, a[1] * s, a[2] * s]
}

fn over(a: V, s: f64) -> V {
    scale(a, 1.0 / s)
}

fn neg(a: V) -> V {
    [-a[0], -a[1], -a[2]]
}

fn dot(a: V, b: V) -> f64 {
    a[0] * b[0] + a[1] * b[1] + a[2] * b[2]
}

fn unit(a: V) -> V {
    over(a, dot(a, a).sqrt())
}

fn near_zero(a: V) -> bool {
    a[0].abs() < 1e-8 && a[1].abs() < 1e-8 && a[2].abs() < 1e-8
}

fn reflect(v: V, n: V) -> V {
    sub(v, scale(n, 2.0 * dot(v, n)))
}

fn refract(uv: V, n: V, eta: f64) -> V {
    let cos_theta = dot(neg(uv), n).min(1.0);
    let perp = scale(add(uv, scale(n, cos_theta)), eta);
    let parallel = scale(n, -((1.0 - dot(perp, perp)).abs().sqrt()));
    add(perp, parallel)
}

#[derive(Clone, Copy)]
enum Surface {
    Diffuse(V),
    Mirror(V, f64),
    Glass(f64),
}

#[derive(Clone, Copy)]
struct Ball {
    center: V,
    radius: f64,
    surface: Surface,
}

#[derive(Clone, Copy)]
struct Hit {
    point: V,
    normal: V,
    t: f64,
    front_face: bool,
    surface: Surface,
}

fn hit_ball(ball: &Ball, origin: V, dir: V, min: f64, max: f64) -> Option<Hit> {
    let oc = sub(origin, ball.center);
    let a = dot(dir, dir);
    let half_b = dot(oc, dir);
    let c = dot(oc, oc) - ball.radius * ball.radius;
    let discriminant = half_b * half_b - a * c;
    if discriminant < 0.0 {
        return None;
    }
    let root_of = discriminant.sqrt();
    let mut root = (-half_b - root_of) / a;
    if !(min < root && root < max) {
        root = (-half_b + root_of) / a;
        if !(min < root && root < max) {
            return None;
        }
    }
    let point = add(scale(dir, root), origin);
    let outward = over(sub(point, ball.center), ball.radius);
    let front_face = dot(dir, outward) < 0.0;
    let normal = if front_face { outward } else { neg(outward) };
    Some(Hit { point, normal, t: root, front_face, surface: ball.surface })
}

fn hit_world(world: &[Ball], origin: V, dir: V, min: f64, max: f64) -> Option<Hit> {
    let mut closest = max;
    let mut found = None;
    for ball in world {
        if let Some(hit) = hit_ball(ball, origin, dir, min, closest) {
            closest = hit.t;
            found = Some(hit);
        }
    }
    found
}

fn random_unit_vector(rng: &mut SmallRng) -> V {
    let mut point = [0.0, 0.0, 0.0];
    for _ in 0..128 {
        let candidate = [
            -1.0 + (1.0 - -1.0) * rng.gen::<f64>(),
            -1.0 + (1.0 - -1.0) * rng.gen::<f64>(),
            -1.0 + (1.0 - -1.0) * rng.gen::<f64>(),
        ];
        if dot(candidate, candidate) < 1.0 {
            point = candidate;
            break;
        }
    }
    unit(point)
}

fn reflectance(cosine: f64, index: f64) -> f64 {
    let mut r0 = (1.0 - index) / (1.0 + index);
    r0 *= r0;
    r0 + (1.0 - r0) * f64::powi(1.0 - cosine, 5)
}

fn scatter(hit: &Hit, dir: V, rng: &mut SmallRng) -> Option<(V, V)> {
    match hit.surface {
        Surface::Diffuse(albedo) => {
            let mut direction = add(hit.normal, random_unit_vector(rng));
            if near_zero(direction) {
                direction = hit.normal;
            }
            Some((albedo, direction))
        }
        Surface::Mirror(albedo, fuzziness) => {
            let reflected = reflect(unit(dir), hit.normal);
            let direction = add(reflected, scale(random_unit_vector(rng), fuzziness));
            if dot(direction, hit.normal) > 0.0 {
                Some((albedo, direction))
            } else {
                None
            }
        }
        Surface::Glass(index) => {
            let ratio = if hit.front_face { 1.0 / index } else { index };
            let unit_direction = unit(dir);
            let cos_theta = dot(neg(unit_direction), hit.normal).min(1.0);
            let sin_theta = (1.0 - cos_theta * cos_theta).sqrt();
            let cannot_refract = ratio * sin_theta > 1.0;
            let direction = if cannot_refract || reflectance(cos_theta, ratio) > rng.gen::<f64>() {
                reflect(unit_direction, hit.normal)
            } else {
                refract(unit_direction, hit.normal, ratio)
            };
            Some(([1.0, 1.0, 1.0], direction))
        }
    }
}

fn ray_color(origin: V, dir: V, depth: u32, world: &[Ball], rng: &mut SmallRng) -> V {
    if depth == 0 {
        return [0.0, 0.0, 0.0];
    }
    if let Some(hit) = hit_world(world, origin, dir, 0.001, f64::INFINITY) {
        if let Some((attenuation, direction)) = scatter(&hit, dir, rng) {
            return times(attenuation, ray_color(hit.point, direction, depth - 1, world, rng));
        }
        return [0.0, 0.0, 0.0];
    }
    let a = (unit(dir)[1] + 1.0) * 0.5;
    add(scale([1.0, 1.0, 1.0], 1.0 - a), scale([0.5, 0.7, 1.0], a))
}

fn level(sum: f64, samples: f64) -> u64 {
    let gamma = (sum * (1.0 / samples)).sqrt();
    let held = if gamma < 0.0 {
        0.0
    } else if gamma > 0.999 {
        0.999
    } else {
        gamma
    };
    (held * 256.0) as u64
}

fn render(
    width: usize,
    aspect_ratio: f64,
    samples: u32,
    max_bounces: u32,
    world: &[Ball],
    rng: &mut SmallRng,
) -> String {
    let height = (width as f64 / aspect_ratio) as usize;
    let center = [0.0, 0.0, 0.0];
    let viewport_width = 2.0 * (width as f64 / height as f64);
    let viewport_u = [viewport_width, 0.0, 0.0];
    let viewport_v = [0.0, -2.0, 0.0];
    let delta_u = over(viewport_u, width as f64);
    let delta_v = over(viewport_v, height as f64);
    let upper_left = sub(
        sub(sub(center, [0.0, 0.0, 1.0]), over(viewport_u, 2.0)),
        over(viewport_v, 2.0),
    );
    let first = add(upper_left, scale(add(delta_u, delta_v), 0.5));
    let mut text = format!("P3\n{} {}\n255\n", width, height);
    for i in 0..height {
        for j in 0..width {
            let mut sum = [0.0, 0.0, 0.0];
            for _ in 0..samples {
                let pixel_center =
                    add(add(scale(delta_v, i as f64), scale(delta_u, j as f64)), first);
                let point_x = -0.5 + rng.gen::<f64>();
                let point_y = -0.5 + rng.gen::<f64>();
                let offset = add(scale(delta_u, point_x), scale(delta_v, point_y));
                let dir = sub(add(pixel_center, offset), center);
                sum = add(sum, ray_color(center, dir, max_bounces, world, rng));
            }
            text.push_str(&format!(
                "{} {} {} ",
                level(sum[0], samples as f64),
                level(sum[1], samples as f64),
                level(sum[2], samples as f64)
            ));
        }
    }
    text
}

// The same scene for the library.

fn s(x: f64) -> Scalar {
    Scalar::from_bits(x.to_bits())
}

fn v(a: V) -> Vec3 {
    Vec3::new(s(a[0]), s(a[1]), s(a[2]))
}

fn scene(balls: &[Ball]) -> HittableObjects {
    let mut world = HittableObjects::new();
    for ball in balls {
        let material = match ball.surface {
            Surface::Diffuse(albedo) => Material::Lambertian(Lambertian::new(v(albedo))),
            Surface::Mirror(albedo, fuzziness) => {
                Material::Metal(Metal::new(v(albedo), s(fuzziness)))
            }
            Surface::Glass(index) => Material::Dieletric(Dieletric::new(s(index))),
        };
        world.add_hittable(Hittable::Sphere(Sphere::new(v(ball.center), s(ball.radius), material)));
    }
    world
}

fn library_render(
    width: usize,
    aspect_ratio: f64,
    samples: u32,
    max_bounces: u32,
    balls: &[Ball],
    rng: &mut SmallRng,
) -> String {
    let mut camera = Camera::default();
    camera.img_width = width;
    camera.aspect_ratio = s(aspect_ratio);
    camera.samples_per_pixel = samples;
    camera.max_bounces = max_bounces;
    camera.render(&scene(balls), rng).unwrap()
}

fn two_spheres() -> Vec<Ball> {
    vec![
        Ball { center: [0.0, 0.0, -1.0], radius: 0.5, surface: Surface::Diffuse([0.5, 0.5, 0.5]) },
        Ball {
            center: [0.0, -100.5, -1.0],
            radius: 100.0,
            surface: Surface::Diffuse([0.5, 0.5, 0.5]),
        },
    ]
}

fn five_spheres() -> Vec<Ball> {
    vec![
        Ball {
            center: [0.0, -100.5, -1.0],
            radius: 100.0,
            surface: Surface::Diffuse([0.8, 0.8, 0.0]),
        },
        Ball { center: [0.0, 0.0, -1.0], radius: 0.5, surface: Surface::Diffuse([0.1, 0.2, 0.5]) },
        Ball { center: [-1.0, 0.0, -1.0], radius: 0.5, surface: Surface::Glass(1.5) },
        Ball { center: [-1.0, 0.0, -1.0], radius: -0.4, surface: Surface::Glass(1.5) },
        Ball {
            center: [1.0, 0.0, -1.0],
            radius: 0.5,
            surface: Surface::Mirror([0.8, 0.6, 0.2], 0.0),
        },
    ]
}

#[test]
fn two_spheres_render_as_on_the_hardware() {
    let balls = two_spheres();
    let ours = library_render(400, 16.0 / 9.0, 1, 1, &balls, &mut SmallRng::seed_from_u64(7));
    let theirs = render(400, 16.0 / 9.0, 1, 1, &balls, &mut SmallRng::seed_from_u64(7));
    assert!(ours == theirs);
    assert!(ours.starts_with("P3\n400 225\n255\n"));
}

#[test]
fn two_spheres_render_the_same_for_the_same_seed() {
    let balls = two_spheres();
    let first = library_render(80, 16.0 / 9.0, 2, 4, &balls, &mut SmallRng::seed_from_u64(11));
    let second = library_render(80, 16.0 / 9.0, 2, 4, &balls, &mut SmallRng::seed_from_u64(11));
    let other = library_render(80, 16.0 / 9.0, 2, 4, &balls, &mut SmallRng::seed_from_u64(12));
    assert!(first == second);
    assert!(first != other);
}

#[test]
fn five_spheres_render_as_on_the_hardware() {
    let balls = five_spheres();
    let ours = library_render(96, 16.0 / 9.0, 4, 12, &balls, &mut SmallRng::seed_from_u64(2024));
    let theirs = render(96, 16.0 / 9.0, 4, 12, &balls, &mut SmallRng::seed_from_u64(2024));
    assert!(ours == theirs);
}

#[test]
fn fuzzy_metal_renders_as_on_the_hardware() {
    let mut balls = five_spheres();
    balls[4].surface = Surface::Mirror([0.8, 0.6, 0.2], 0.75);
    balls[1].surface = Surface::Mirror([0.7, 0.7, 0.7], 0.25);
    let ours = library_render(64, 1.5, 3, 10, &balls, &mut SmallRng::seed_from_u64(5));
    let theirs = render(64, 1.5, 3, 10, &balls, &mut SmallRng::seed_from_u64(5));
    assert!(ours == theirs);
}

#[test]
fn render_header_and_triples() {
    let balls = two_spheres();
    let text = library_render(20, 2.0, 1, 3, &balls, &mut SmallRng::seed_from_u64(3));
    let mut lines = text.split('\n');
    assert_eq!(lines.next(), Some("P3"));
    assert_eq!(lines.next(), Some("20 10"));
    assert_eq!(lines.next(), Some("255"));
    let body = lines.next().unwrap();
    assert_eq!(lines.next(), None);
    let levels: Vec<&str> = body.split(' ').collect();
    assert_eq!(levels.len(), 20 * 10 * 3 + 1);
    assert_eq!(levels[20 * 10 * 3], "");
    for level in &levels[..20 * 10 * 3] {
        let n: u32 = level.parse().unwrap();
        assert!(n <= 255);
    }
}
