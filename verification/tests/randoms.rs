use rand::rngs::SmallRng;
use rand::{Rng, RngCore, SeedableRng};
use ray_tracing::random::{between, random_between, random_unit, unit_scalar};
use ray_tracing::scalar::Scalar;
use ray_tracing::vec3::Vec3;

fn s(x: f64) -> Scalar {
    Scalar::from_bits(x.to_bits())
}

fn f(x: Scalar) -> f64 {
    f64::from_bits(x.to_bits())
}

fn v(x: f64, y: f64, z: f64) -> Vec3 {
    Vec3::new(s(x), s(y), s(z))
}

fn a(v: &Vec3) -> [f64; 3] {
    [f(v.x()), f(v.y()), f(v.z())]
}

#[test]
fn unit_scalar_of_given_words() {
    assert_eq!(f(unit_scalar(0)), 0.0);
    assert_eq!(f(unit_scalar(2047)), 0.0);
    assert_eq!(f(unit_scalar(2048)), 1.0 / 9007199254740992.0);
    assert_eq!(f(unit_scalar(1 << 63)), 0.5);
    assert_eq!(f(unit_scalar(3 << 62)), 0.75);
    assert_eq!(f(unit_scalar(u64::MAX)), 1.0 - 1.0 / 9007199254740992.0);
    assert!(f(unit_scalar(u64::MAX)) < 1.0);
}

#[test]
fn unit_draws_are_the_draws_of_the_generator() {
    for seed in 0..20 {
        let mut ours = SmallRng::seed_from_u64(seed);
        let mut theirs = SmallRng::seed_from_u64(seed);
        let mut words = SmallRng::seed_from_u64(seed);
        for _ in 0..500 {
            let x = f(random_unit(&mut ours));
            assert_eq!(x, theirs.gen::<f64>());
            assert_eq!(x, f(unit_scalar(words.next_u64())));
            assert!(0.0 <= x && x < 1.0);
        }
        assert!(ours == theirs);
    }
}

#[test]
fn between_two_bounds() {
    assert_eq!(f(between(s(-1.0), s(1.0), s(0.0))), -1.0);
    assert_eq!(f(between(s(-1.0), s(1.0), s(0.5))), 0.0);
    assert_eq!(f(between(s(-1.0), s(1.0), s(0.75))), 0.5);
    assert_eq!(f(between(s(2.0), s(10.0), s(0.25))), 4.0);
    let mut ours = SmallRng::seed_from_u64(3);
    let mut theirs = SmallRng::seed_from_u64(3);
    for _ in 0..1000 {
        let x = f(random_between(&mut ours, s(-3.0), s(5.5)));
        assert_eq!(x, -3.0 + (5.5 - -3.0) * theirs.gen::<f64>());
        assert!(-3.0 <= x && x < 5.5);
    }
}

#[test]
fn random_vectors_take_three_draws() {
    let mut ours = SmallRng::seed_from_u64(17);
    let mut theirs = SmallRng::seed_from_u64(17);
    for _ in 0..200 {
        let p = a(&Vec3::random(&mut ours));
        assert_eq!(p, [theirs.gen::<f64>(), theirs.gen::<f64>(), theirs.gen::<f64>()]);
        let q = a(&Vec3::random_between(&mut ours, s(-1.0), s(1.0)));
        let expected = [
            -1.0 + 2.0 * theirs.gen::<f64>(),
            -1.0 + 2.0 * theirs.gen::<f64>(),
            -1.0 + 2.0 * theirs.gen::<f64>(),
        ];
        assert_eq!(q, expected);
    }
}

#[test]
fn points_of_the_unit_ball() {
    let mut rng = SmallRng::seed_from_u64(99);
    let mut theirs = SmallRng::seed_from_u64(99);
    let mut rejected = 0;
    for _ in 0..3000 {
        let p = Vec3::random_in_unit_sphere(&mut rng);
        assert!(p.accepts());
        let c = a(&p);
        assert!(c[0] * c[0] + c[1] * c[1] + c[2] * c[2] < 1.0);
        loop {
            let q = [
                -1.0 + 2.0 * theirs.gen::<f64>(),
                -1.0 + 2.0 * theirs.gen::<f64>(),
                -1.0 + 2.0 * theirs.gen::<f64>(),
            ];
            if q[0] * q[0] + q[1] * q[1] + q[2] * q[2] < 1.0 {
                assert_eq!(c, q);
                break;
            }
            rejected += 1;
        }
    }
    assert!(rejected > 2000 && rejected < 4000);
    assert!(!v(1.0, 0.0, 0.0).accepts());
    assert!(!v(0.6, 0.6, 0.6).accepts());
    assert!(v(0.5, 0.5, 0.5).accepts());
    assert!(Vec3::zeroed().accepts());
    assert!(!v(f64::NAN, 0.0, 0.0).accepts());
}

#[test]
fn unit_vectors_and_hemispheres() {
    let mut rng = SmallRng::seed_from_u64(5);
    let normal = v(0.0, 0.6, -0.8);
    for _ in 0..2000 {
        let u = Vec3::random_unit_vector(&mut rng);
        assert!((f(u.length()) - 1.0).abs() < 1.0e-12);
        let h = Vec3::random_on_hemisphere(&normal, &mut rng);
        assert!((f(h.length()) - 1.0).abs() < 1.0e-12);
        assert!(f(h.dot(&normal)) >= 0.0);
    }
}
