use raytracer::image::api::{primary_ray, render, render_frame, tone_frame, tone_map};
use raytracer::image::sphere::{background, cast_ray};
use raytracer::util::fixed::Fixed;
use raytracer::util::vec3::Vec3;

fn fx(v: f64) -> Fixed {
    Fixed { raw: (v * 4294967296.0).round() as i64 }
}

fn as_f64(f: Fixed) -> f64 {
    f.raw as f64 / 4294967296.0
}

fn within_one(bytes: &[u8], expected: &[(u8, u8, u8)]) -> bool {
    bytes.len() == 3 * expected.len()
        && expected.iter().enumerate().all(|(i, p)| {
            (bytes[3 * i] as i32 - p.0 as i32).abs() <= 1
                && (bytes[3 * i + 1] as i32 - p.1 as i32).abs() <= 1
                && (bytes[3 * i + 2] as i32 - p.2 as i32).abs() <= 1
        })
}

#[test]
fn tone_map_of_the_background() {
    assert_eq!(tone_map(&background()), [51, 178, 204]);
}

#[test]
fn tone_map_divides_by_the_largest_channel() {
    let c = Vec3 { x: Fixed::from_int(2), y: Fixed::from_int(1), z: Fixed::from_ratio(1, 2) };
    // 255, 127.5 -> 128, 63.75 -> 64
    assert_eq!(tone_map(&c), [255, 128, 64]);
    let c = Vec3 { x: Fixed::from_int(1), y: Fixed::from_int(16), z: Fixed::from_int(4) };
    assert_eq!(tone_map(&c), [16, 255, 64]);
    let c = Vec3 { x: Fixed::from_ratio(1, 510), y: Fixed::from_ratio(1, 512), z: Fixed::zero() };
    assert_eq!(tone_map(&c), [0, 0, 0]);
    let c = Vec3 { x: Fixed::from_ratio(1, 509), y: Fixed::one(), z: Fixed { raw: i64::MAX } };
    assert_eq!(tone_map(&c), [0, 0, 255]);
    let c = Vec3 { x: Fixed::from_ratio(3, 509), y: Fixed::one(), z: Fixed::one() };
    assert_eq!(tone_map(&c), [2, 255, 255]);
}

#[test]
fn tone_map_clamps_negative_channels() {
    let c = Vec3 { x: Fixed::from_int(-1), y: Fixed::from_ratio(1, 2), z: Fixed { raw: i64::MIN } };
    assert_eq!(tone_map(&c), [0, 128, 0]);
}

#[test]
fn tone_frame_keeps_the_order() {
    let frame = vec![
        Vec3::from_ints(1, 0, 0),
        Vec3::from_ints(0, 1, 0),
        Vec3 { x: Fixed::zero(), y: Fixed::zero(), z: Fixed::from_ratio(1, 2) },
    ];
    assert_eq!(tone_frame(&frame), vec![255, 0, 0, 0, 255, 0, 0, 0, 128]);
    assert_eq!(tone_frame(&Vec::new()), Vec::<u8>::new());
}

#[test]
fn primary_ray_of_a_single_pixel_looks_down_negative_z() {
    assert_eq!(primary_ray(0, 1, 1, Fixed::one()), Vec3::from_ints(0, 0, -1));
}

#[test]
fn primary_rays_of_two_by_two() {
    // dx = -0.5 or 0.5; dy = -(p / 2 + 0.5) + 1; dz = -1
    let expected = [(-0.5, 0.5), (0.5, 0.0), (-0.5, -0.5), (0.5, -1.0)];
    for (p, e) in expected.iter().enumerate() {
        let length = (e.0 * e.0 + e.1 * e.1 + 1.0f64).sqrt();
        let d = primary_ray(p as u64, 2, 2, Fixed::one());
        assert!((as_f64(d.x) - e.0 / length).abs() < 1e-8);
        assert!((as_f64(d.y) - e.1 / length).abs() < 1e-8);
        assert!((as_f64(d.z) + 1.0 / length).abs() < 1e-8);
    }
}

#[test]
fn primary_ray_widens_with_the_field_of_view() {
    // tan = 2: dz = -4 / 4 = -1, dx = 1.5 - 2 = -0.5, dy = -(1 / 4 + 0.5) + 2
    let d = primary_ray(1, 4, 4, fx(2.0));
    let length = (0.25 + 1.25f64 * 1.25 + 1.0).sqrt();
    assert!((as_f64(d.x) + 0.5 / length).abs() < 1e-8);
    assert!((as_f64(d.y) - 1.25 / length).abs() < 1e-8);
    assert!((as_f64(d.z) + 1.0 / length).abs() < 1e-8);
}

#[test]
fn render_of_nothing_is_empty() {
    assert_eq!(render(0, 5, Fixed::one()), Vec::<u8>::new());
    assert_eq!(render(5, 0, Fixed::one()), Vec::<u8>::new());
    assert_eq!(render_frame(0, 0, Fixed::one()), Vec::<Vec3>::new());
}

#[test]
fn render_one_by_one_looks_through_the_glass_sphere() {
    let frame = render_frame(1, 1, Fixed::one());
    assert_eq!(frame.len(), 1);
    assert_eq!(frame[0], cast_ray(&Vec3::from_ints(0, 0, 0), &Vec3::from_ints(0, 0, -1), 0));
    let bytes = render(1, 1, Fixed::one());
    assert!(within_one(&bytes, &[(58, 60, 48)]));
}

#[test]
fn render_two_by_two_is_all_sky() {
    let bytes = render(2, 2, Fixed::one());
    assert_eq!(bytes, vec![51, 178, 204, 51, 178, 204, 51, 178, 204, 51, 178, 204]);
}

#[test]
fn render_four_by_three() {
    let bytes = render(4, 3, Fixed::one());
    let sky = (51, 178, 204);
    let expected = [
        sky,
        sky,
        (41, 143, 163),
        sky,
        sky,
        (196, 131, 65),
        (255, 170, 85),
        sky,
        sky,
        sky,
        sky,
        sky,
    ];
    assert!(within_one(&bytes, &expected));
}

#[test]
fn render_eight_by_six_shows_the_highlight_of_the_mirror() {
    let bytes = render(8, 6, Fixed::one());
    assert_eq!(bytes.len(), 3 * 48);
    assert_eq!(&bytes[3 * 29..3 * 30], &[255, 255, 255]);
    let sky = (51, 178, 204);
    // The rays of pixels 26 and 28 meet the floor on the border of four
    // tiles, at (-8, -4, -16) and (0, -4, -16): either tile colour may show.
    let rows: [[(u8, u8, u8); 8]; 6] = [
        [sky; 8],
        [sky, sky, sky, sky, sky, (41, 143, 163), sky, sky],
        [sky, sky, sky, (196, 208, 167), (209, 97, 97), sky, sky, sky],
        [sky, sky, (139, 0, 0), (82, 54, 27), (146, 0, 0), (255, 255, 255), sky, sky],
        [sky; 8],
        [sky; 8],
    ];
    let mut expected: Vec<(u8, u8, u8)> = rows.iter().flatten().copied().collect();
    for border in [26, 28] {
        let red = expected[border].0;
        let found = (bytes[3 * border], bytes[3 * border + 1], bytes[3 * border + 2]);
        let grey = (red, red, red);
        let brown = (red, (red as f64 * 2.0 / 3.0).round() as u8, (red as f64 / 3.0).round() as u8);
        let near = |a: (u8, u8, u8), b: (u8, u8, u8)| {
            (a.0 as i32 - b.0 as i32).abs() <= 1
                && (a.1 as i32 - b.1 as i32).abs() <= 1
                && (a.2 as i32 - b.2 as i32).abs() <= 1
        };
        assert!(near(found, grey) || near(found, brown));
        expected[border] = found;
    }
    assert!(within_one(&bytes, &expected));
}

#[test]
fn render_twice_gives_the_same_bytes() {
    assert_eq!(render(5, 4, Fixed::one()), render(5, 4, Fixed::one()));
}

fn squared_length_error(v: Vec3) -> i128 {
    let (x, y, z) = (v.x.raw as i128, v.y.raw as i128, v.z.raw as i128);
    x * x + y * y + z * z - (1i128 << 64)
}

#[test]
fn primary_rays_are_nearly_unit() {
    for (width, height) in [(1u32, 1u32), (4, 3), (3, 7), (1024, 768), (16384, 16384)] {
        let count = width as u64 * height as u64;
        for pixel in [0, 1 % count, count / 3, count / 2, count - 1] {
            let d = primary_ray(pixel, width, height, Fixed::one());
            assert!(squared_length_error(d).abs() <= 16 << 32);
        }
    }
}

#[test]
fn tone_map_keeps_the_order_of_the_channels() {
    let c = Vec3 { x: fx(0.31), y: fx(4.2), z: fx(4.19) };
    let rgb = tone_map(&c);
    assert_eq!(rgb[1], 255);
    assert!(rgb[0] <= rgb[2] && rgb[2] <= rgb[1]);
    assert_eq!(rgb[0], (255.0f64 * 0.31 / 4.2).round() as u8);
    assert_eq!(rgb[2], (255.0f64 * 4.19 / 4.2).round() as u8);
}
