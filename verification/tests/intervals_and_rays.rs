use ray_tracing::consts::{Interval, INFINITY, NEG_INFINITY};
use ray_tracing::ray::Ray;
use ray_tracing::scalar::Scalar;
use ray_tracing::vec3::Vec3;

fn s(x: f64) -> Scalar {
    Scalar::from_bits(x.to_bits())
}

fn f(x: Scalar) -> f64 {
    f64::from_bits(x.to_bits())
}

fn v(x: f64, y: f64, z: f64) -> Vec3 {
    Vec3::new(s(x), s(y), s(z))
}

fn a(v: &Vec3) -> [f64; 3] {
    [f(v.x()), f(v.y()), f(v.z())]
}

#[test]
fn named_scalars() {
    assert_eq!(f(Scalar::from_bits(INFINITY)), f64::INFINITY);
    assert_eq!(f(Scalar::from_bits(NEG_INFINITY)), f64::NEG_INFINITY);
    assert_eq!(f(Scalar::one()), 1.0);
    assert_eq!(f(Scalar::half()), 0.5);
    assert_eq!(f(Scalar::two()), 2.0);
    assert_eq!(f(Scalar::infinity(false)), f64::INFINITY);
    assert_eq!(f(Scalar::infinity(true)), f64::NEG_INFINITY);
    assert!(f(Scalar::not_a_number()).is_nan());
    assert_eq!(Scalar::signed_zero(true).to_bits(), (-0.0f64).to_bits());
    assert_eq!(Scalar::signed_zero(false).to_bits(), 0);
}

#[test]
fn interval_contains_its_bounds() {
    let i = Interval::new(s(1.0), s(2.0));
    assert!(i.contains(s(1.0)));
    assert!(i.contains(s(1.5)));
    assert!(i.contains(s(2.0)));
    assert!(!i.contains(s(0.999)));
    assert!(!i.contains(s(2.001)));
    assert!(!i.contains(s(f64::NAN)));
}

#[test]
fn interval_surrounds_only_its_inside() {
    let i = Interval::new(s(1.0), s(2.0));
    assert!(!i.surrounds(s(1.0)));
    assert!(i.surrounds(s(1.5)));
    assert!(!i.surrounds(s(2.0)));
    assert!(!i.surrounds(s(f64::NAN)));
    let open_end = Interval::new(s(0.001), Scalar::from_bits(INFINITY));
    assert!(open_end.surrounds(s(1.0e300)));
    assert!(!open_end.surrounds(s(f64::INFINITY)));
    assert!(!open_end.surrounds(s(0.001)));
}

#[test]
fn empty_and_universe() {
    let e = Interval::empty();
    assert_eq!(f(e.min), f64::INFINITY);
    assert_eq!(f(e.max), f64::NEG_INFINITY);
    let u = Interval::universe();
    assert_eq!(f(u.min), f64::NEG_INFINITY);
    assert_eq!(f(u.max), f64::INFINITY);
    for x in [0.0, -0.0, 1.0, -1.0e300, f64::INFINITY, f64::NEG_INFINITY, f64::MAX] {
        assert!(!e.contains(s(x)));
        assert!(!e.surrounds(s(x)));
        assert!(u.contains(s(x)));
    }
    assert!(!u.contains(s(f64::NAN)));
    assert!(u.surrounds(s(0.0)));
    assert!(!u.surrounds(s(f64::INFINITY)));
}

#[test]
fn clamp_moves_to_the_nearer_bound() {
    let i = Interval::new(s(0.0), s(0.999));
    assert_eq!(f(i.clamp(s(-0.5))), 0.0);
    assert_eq!(f(i.clamp(s(0.0))), 0.0);
    assert_eq!(f(i.clamp(s(0.5))), 0.5);
    assert_eq!(f(i.clamp(s(0.999))), 0.999);
    assert_eq!(f(i.clamp(s(1.0))), 0.999);
    assert_eq!(f(i.clamp(s(f64::INFINITY))), 0.999);
    assert_eq!(f(i.clamp(s(f64::NEG_INFINITY))), 0.0);
    assert!(f(i.clamp(s(f64::NAN))).is_nan());
}

#[test]
fn ray_holds_origin_and_direction() {
    let mut ray = Ray::new(v(1.0, 2.0, 3.0), v(0.0, 0.0, -1.0));
    assert_eq!(a(ray.origin()), [1.0, 2.0, 3.0]);
    assert_eq!(a(ray.dir()), [0.0, 0.0, -1.0]);
    ray.set_origin(v(4.0, 5.0, 6.0));
    assert_eq!(a(ray.origin()), [4.0, 5.0, 6.0]);
    assert_eq!(a(ray.dir()), [0.0, 0.0, -1.0]);
    ray.set_dir(v(0.0, 1.0, 0.0));
    assert_eq!(a(ray.origin()), [4.0, 5.0, 6.0]);
    assert_eq!(a(ray.dir()), [0.0, 1.0, 0.0]);
}

#[test]
fn ray_at_a_parameter() {
    let ray = Ray::new(v(1.0, 2.0, 3.0), v(0.5, -1.0, 2.0));
    assert_eq!(a(&ray.at(s(0.0))), [1.0, 2.0, 3.0]);
    assert_eq!(a(&ray.at(s(1.0))), [1.5, 1.0, 5.0]);
    assert_eq!(a(&ray.at(s(-2.0))), [0.0, 4.0, -1.0]);
    let t = 0.3;
    assert_eq!(a(&ray.at(s(t))), [t * 0.5 + 1.0, t * -1.0 + 2.0, t * 2.0 + 3.0]);
}
