use raytracer::raster::{channel_level, encode_raster, pixel_from_levels, pixel_text, Pixel};

// The floating-point half of tone mapping: average, gamma, then 256 times
// the value, floored.
fn scaled(sum: f64, samples: u32, gamma: f64) -> i64 {
    (256.0 * (sum / samples as f64).powf(1.0 / gamma)).floor() as i64
}

fn text(c: (f64, f64, f64), gamma: f64, samples: u32) -> String {
    let p = pixel_from_levels(
        scaled(c.0, samples, gamma),
        scaled(c.1, samples, gamma),
        scaled(c.2, samples, gamma),
    );
    String::from_utf8(pixel_text(p)).unwrap()
}

#[test]
fn write_color1() {
    assert_eq!(text((0.5, 0.5, 0.5), 1.0, 1), String::from("128 128 128"));
}

#[test]
fn write_color2() {
    assert_eq!(text((0.5, -1.0, 3.0), 1.0, 1), String::from("128 0 255"));
}

#[test]
fn write_color3() {
    assert_eq!(text((1.0, 1.0, 1.0), 1.0, 1), String::from("255 255 255"));
}

#[test]
fn write_color4() {
    assert_eq!(text((3.0, 2.0, 1.0), 2.0, 3), String::from("255 209 147"));
}

#[test]
fn levels_clamp() {
    assert_eq!(channel_level(-5), 0);
    assert_eq!(channel_level(0), 0);
    assert_eq!(channel_level(97), 97);
    assert_eq!(channel_level(255), 255);
    assert_eq!(channel_level(256), 255);
    assert_eq!(channel_level(i64::MAX), 255);
}

#[test]
fn pixel_text_digits() {
    let p = Pixel { r: 0, g: 7, b: 100 };
    assert_eq!(pixel_text(p), b"0 7 100".to_vec());
}

#[test]
fn raster_of_two_pixels() {
    let pixels = vec![Pixel { r: 255, g: 0, b: 10 }, Pixel { r: 1, g: 22, b: 128 }];
    let out = encode_raster(2, 1, &pixels).unwrap();
    assert_eq!(String::from_utf8(out).unwrap(), "P3\n2 1\n255\n255 0 10\n1 22 128\n");
}

#[test]
fn raster_of_empty_image() {
    let out = encode_raster(0, 3, &vec![]).unwrap();
    assert_eq!(String::from_utf8(out).unwrap(), "P3\n0 3\n255\n");
}

#[test]
fn raster_size_mismatch() {
    let pixels = vec![Pixel { r: 1, g: 2, b: 3 }];
    assert_eq!(encode_raster(2, 1, &pixels), None);
}
