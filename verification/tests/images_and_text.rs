use ray_tracing::image::{push_header, PPMImage};
use ray_tracing::scalar::Scalar;
use ray_tracing::text::{decimal_string, digit_char, push_decimal};
use ray_tracing::vec3::Vec3;

fn s(x: f64) -> Scalar {
    Scalar::from_bits(x.to_bits())
}

fn v(x: f64, y: f64, z: f64) -> Vec3 {
    Vec3::new(s(x), s(y), s(z))
}

#[test]
fn digits() {
    let all: Vec<char> = (0..10u8).map(digit_char).collect();
    assert_eq!(all, vec!['0', '1', '2', '3', '4', '5', '6', '7', '8', '9']);
}

#[test]
fn decimal_text_of_integers() {
    for n in [0u64, 1, 9, 10, 11, 99, 100, 255, 256, 1000, 65535, 4294967295, u64::MAX] {
        assert_eq!(decimal_string(n), format!("{}", n));
    }
    let mut state: u64 = 12345;
    for _ in 0..2000 {
        state = state.wrapping_mul(6364136223846793005).wrapping_add(1442695040888963407);
        let n = state >> (state % 64);
        assert_eq!(decimal_string(n), format!("{}", n));
    }
}

#[test]
fn decimal_text_is_appended() {
    let mut text = String::from("width ");
    push_decimal(&mut text, 400);
    assert_eq!(text, "width 400");
    push_decimal(&mut text, 0);
    assert_eq!(text, "width 4000");
}

#[test]
fn header_has_three_lines() {
    let mut text = String::new();
    push_header(&mut text, "P3", 400, 225, 255);
    assert_eq!(text, "P3\n400 225\n255\n");
    let lines: Vec<&str> = text.lines().collect();
    assert_eq!(lines, vec!["P3", "400 225", "255"]);
    let mut text = String::from("#");
    push_header(&mut text, "P6", 0, 1, 65535);
    assert_eq!(text, "#P6\n0 1\n65535\n");
}

#[test]
fn image_keeps_what_it_is_given() {
    let pixels = vec![vec![v(1.0, 0.5, 0.0)], vec![v(0.0, 0.0, 1.0)]];
    let image = PPMImage::new(pixels, 1, 2, 255);
    assert_eq!(image.width, 1);
    assert_eq!(image.height, 2);
    assert_eq!(image.max_color, 255);
    assert_eq!(image.color_encoding, "P3");
    assert_eq!(image.color_codes.len(), 2);
    assert_eq!(image.color_codes[1][0].z().to_bits(), 1.0f64.to_bits());
}

#[test]
fn image_as_one_string() {
    let pixels = vec![
        vec![v(1.0, 0.5, 0.0), v(0.25, 0.999, 0.1)],
        vec![v(0.0, 0.0, 1.0), v(-1.0, 2.0, f64::NAN)],
    ];
    let image = PPMImage::new(pixels, 2, 2, 255);
    assert_eq!(
        image.to_text(),
        "P3\n2 2\n255\n255 127 0 63 254 25 0 0 255 0 510 0 "
    );
}

#[test]
fn image_as_lines() {
    let pixels = vec![
        vec![v(1.0, 0.5, 0.0), v(0.25, 0.999, 0.1)],
        vec![v(0.0, 0.0, 1.0), v(-1.0, 2.0, f64::NAN)],
    ];
    let image = PPMImage::new(pixels, 2, 2, 255);
    assert_eq!(
        image.to_lines(),
        "P3\n2 2\n255\n255 127 0\n63 254 25\n0 0 255\n0 510 0\n"
    );
}

#[test]
fn image_text_follows_its_rows_not_its_size() {
    let image = PPMImage::new(Vec::new(), 3, 4, 15);
    assert_eq!(image.to_text(), "P3\n3 4\n15\n");
    let image = PPMImage::new(vec![Vec::new(), vec![v(0.5, 0.5, 0.5)], Vec::new()], 1, 1, 10);
    assert_eq!(image.to_text(), "P3\n1 1\n10\n5 5 5 ");
}

#[test]
fn channels_are_cut_off_at_the_largest_integer() {
    let image = PPMImage::new(vec![vec![v(1.0e30, 1.0e10, 4.0e9)]], 1, 1, 1);
    assert_eq!(image.to_text(), "P3\n1 1\n1\n4294967295 4294967295 4000000000 ");
    assert_eq!(
        image.to_lines(),
        format!("P3\n1 1\n1\n{} 10000000000 4000000000\n", usize::MAX)
    );
    let image = PPMImage::new(vec![vec![v(0.5, 1.0, 0.999999)]], 1, 1, u32::MAX);
    assert_eq!(
        image.to_text(),
        format!(
            "P3\n1 1\n4294967295\n{} {} {} ",
            (0.5 * 4294967295.0f64) as u32,
            4294967295u32,
            (0.999999 * 4294967295.0f64) as u32
        )
    );
}
