use ray_tracing::scalar::Scalar;

fn same(ours: Scalar, theirs: f64) -> bool {
    let got = f64::from_bits(ours.to_bits());
    if theirs.is_nan() {
        got.is_nan()
    } else {
        got.to_bits() == theirs.to_bits()
    }
}

fn next(state: &mut u64) -> u64 {
    *state ^= *state << 13;
    *state ^= *state >> 7;
    *state ^= *state << 17;
    *state
}

fn corner_cases() -> Vec<f64> {
    vec![
        0.0,
        -0.0,
        1.0,
        -1.0,
        0.5,
        2.0,
        3.0,
        0.1,
        0.001,
        0.999,
        1e-8,
        255.999,
        256.0,
        1.0e300,
        -1.0e300,
        1.0e-300,
        f64::MAX,
        f64::MIN,
        f64::MIN_POSITIVE,
        f64::MIN_POSITIVE / 2.0,
        f64::from_bits(1),
        f64::from_bits(0x000F_FFFF_FFFF_FFFF),
        f64::from_bits(0x0010_0000_0000_0001),
        f64::EPSILON,
        1.0 + f64::EPSILON,
        1.0 - f64::EPSILON / 2.0,
        4503599627370496.0,
        9007199254740992.0,
        9007199254740993.0,
        18446744073709551615.0,
        f64::INFINITY,
        f64::NEG_INFINITY,
        f64::NAN,
        std::f64::consts::PI,
        1.0 / 3.0,
    ]
}

fn sample_pairs() -> Vec<(f64, f64)> {
    let mut pairs = Vec::new();
    let corners = corner_cases();
    for a in &corners {
        for b in &corners {
            pairs.push((*a, *b));
        }
    }
    let mut state: u64 = 0x9E37_79B9_7F4A_7C15;
    for _ in 0..20000 {
        let a = f64::from_bits(next(&mut state));
        let b = f64::from_bits(next(&mut state));
        pairs.push((a, b));
    }
    for _ in 0..20000 {
        let a = f64::from_bits(next(&mut state));
        let nudge = next(&mut state) % 0x0080_0000_0000_0000;
        let b = f64::from_bits(a.to_bits() ^ nudge);
        pairs.push((a, b));
        pairs.push((a, -b));
    }
    for _ in 0..20000 {
        let a = (next(&mut state) % 2000) as f64 / 1000.0 - 1.0;
        let b = (next(&mut state) % 2000) as f64 / 997.0 - 1.0;
        pairs.push((a, b));
    }
    pairs
}

#[test]
fn multiplication_agrees_with_the_hardware() {
    for (a, b) in sample_pairs() {
        let ours = Scalar::from_bits(a.to_bits()).mul(Scalar::from_bits(b.to_bits()));
        assert!(same(ours, a * b), "{:e} * {:e}", a, b);
    }
}

#[test]
fn addition_agrees_with_the_hardware() {
    for (a, b) in sample_pairs() {
        let ours = Scalar::from_bits(a.to_bits()).add(Scalar::from_bits(b.to_bits()));
        assert!(same(ours, a + b), "{:e} + {:e}", a, b);
    }
}

#[test]
fn subtraction_agrees_with_the_hardware() {
    for (a, b) in sample_pairs() {
        let ours = Scalar::from_bits(a.to_bits()).sub(Scalar::from_bits(b.to_bits()));
        assert!(same(ours, a - b), "{:e} - {:e}", a, b);
    }
}

#[test]
fn division_agrees_with_the_hardware() {
    for (a, b) in sample_pairs() {
        let ours = Scalar::from_bits(a.to_bits()).div(Scalar::from_bits(b.to_bits()));
        assert!(same(ours, a / b), "{:e} / {:e}", a, b);
    }
}

#[test]
fn square_root_agrees_with_the_hardware() {
    for (a, b) in sample_pairs() {
        assert!(same(Scalar::from_bits(a.to_bits()).sqrt(), a.sqrt()), "sqrt {:e}", a);
        assert!(same(Scalar::from_bits(b.to_bits()).sqrt(), b.sqrt()), "sqrt {:e}", b);
    }
}

#[test]
fn ordering_agrees_with_the_hardware() {
    for (a, b) in sample_pairs() {
        let x = Scalar::from_bits(a.to_bits());
        let y = Scalar::from_bits(b.to_bits());
        assert_eq!(x.lt(y), a < b, "{:e} < {:e}", a, b);
        assert_eq!(x.le(y), a <= b, "{:e} <= {:e}", a, b);
        assert_eq!(x.gt(y), a > b, "{:e} > {:e}", a, b);
        assert_eq!(x.eq(y), a == b, "{:e} == {:e}", a, b);
        assert!(same(x.min(y), a.min(b)), "min {:e} {:e}", a, b);
        assert!(same(x.neg(), -a));
        assert!(same(x.abs(), a.abs()));
        assert_eq!(x.nan(), a.is_nan());
        assert_eq!(x.finite(), a.is_finite());
        assert_eq!(x.infinite(), a.is_infinite());
    }
}

#[test]
fn integer_conversions_agree_with_the_hardware() {
    let mut state: u64 = 0x1234_5678_9ABC_DEF1;
    let mut integers: Vec<u64> = vec![
        0,
        1,
        2,
        255,
        256,
        400,
        1 << 52,
        (1 << 53) - 1,
        1 << 53,
        (1 << 53) + 1,
        (1 << 53) + 2,
        (1 << 53) + 3,
        u64::MAX,
        u64::MAX - 1023,
        u64::MAX - 1024,
        u64::MAX - 1025,
    ];
    for _ in 0..5000 {
        let n = next(&mut state);
        integers.push(n);
        integers.push(n >> (next(&mut state) % 64));
    }
    for n in integers {
        assert!(same(Scalar::from_u64(n), n as f64), "{}", n);
    }
    for (a, b) in sample_pairs() {
        for v in [a, b, a * 1.0e6, b * 4.0e9, a * 1.8e19] {
            let x = Scalar::from_bits(v.to_bits());
            assert_eq!(x.to_u64(), v as u64, "{:e}", v);
            assert_eq!(x.to_u32(), v as u32, "{:e}", v);
            assert_eq!(x.to_usize(), v as usize, "{:e}", v);
        }
    }
}
