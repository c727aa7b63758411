//! The renderer: one primary ray per pixel, then tone mapping to bytes.
use crate::image::sphere::{cast_ray, radiance_spec};
use crate::util::fixed::{clamp_wide, floor_div_wide, Fixed, ONE_RAW};
use crate::util::fixed::{lemma_half_of_whole, lemma_product_with_one};
use crate::util::vec3::{
    lemma_long_as_component, lemma_unit_is_nearly_unit, PixelOperations, Vec3,
};
use core::ops::Neg;
use vstd::prelude::*;

verus! {

/// The position of the camera: the origin.
pub open spec fn camera_spec() -> Vec3 {
    Vec3 { x: Fixed { raw: 0 }, y: Fixed { raw: 0 }, z: Fixed { raw: 0 } }
}

/// The direction, not yet of unit length, of the primary ray through pixel
/// `pixel` of an image of `width` by `height` pixels, counted row by row
/// from the top left, for a camera that looks down the negative z axis
/// with the given tangent of half its vertical field of view:
///
/// * `dx = (pixel mod width + 1/2) - width / 2`
/// * `dy = -(pixel / width + 1/2) + height / 2`, the quotient not rounded
///   to a whole row
/// * `dz = -height / (2 * tan)`
pub open spec fn primary_direction_spec(
    pixel: int,
    width: int,
    height: int,
    tan_half_fov: Fixed,
) -> Vec3 {
    let half = Fixed::ratio(1, 2);
    let two = Fixed::whole(2);
    let w = Fixed::whole(width);
    let h = Fixed::whole(height);
    Vec3 {
        x: Fixed::whole(pixel % width).sum(half).difference(w.quotient(two)),
        y: Fixed::whole(pixel).quotient(w).sum(half).negation().sum(h.quotient(two)),
        z: h.negation().quotient(two.product(tan_half_fov)),
    }
}

/// The unit direction of the primary ray through a pixel.
pub open spec fn primary_ray_spec(pixel: int, width: int, height: int, tan_half_fov: Fixed) -> Vec3 {
    primary_direction_spec(pixel, width, height, tan_half_fov).unit()
}

/// The radiance of every pixel, row by row from the top left.
pub open spec fn frame_spec(width: int, height: int, tan_half_fov: Fixed) -> Seq<Vec3> {
    Seq::new(
        (width * height) as nat,
        |pixel: int|
            radiance_spec(
                camera_spec(),
                primary_ray_spec(pixel, width, height, tan_half_fov),
                0,
            ),
    )
}

/// One channel of a tone-mapped pixel: `255 * c / m` rounded to the
/// nearest whole number, halves upward, and clamped to a byte.
pub open spec fn tone_channel_spec(c: Fixed, m: Fixed) -> u8 {
    let rounded = (510 * c.raw + m.raw) / (2 * m.raw);
    if rounded < 0 {
        0u8
    } else if rounded > 255 {
        255u8
    } else {
        rounded as u8
    }
}

/// The divisor of tone mapping: the largest of the three channels and one.
pub open spec fn tone_scale_spec(color: Vec3) -> Fixed {
    color.y.larger(color.z).larger(color.x).larger(Fixed { raw: ONE_RAW })
}

/// A radiance as three bytes: every channel divided by the largest of the
/// three and one, which keeps the hue and leaves no channel above 255.
pub open spec fn tone_map_spec(color: Vec3) -> Seq<u8> {
    let m = tone_scale_spec(color);
    seq![
        tone_channel_spec(color.x, m),
        tone_channel_spec(color.y, m),
        tone_channel_spec(color.z, m),
    ]
}

/// A frame as bytes: red, green and blue of every pixel, in the order of
/// the frame.
pub open spec fn tone_frame_spec(frame: Seq<Vec3>) -> Seq<u8> {
    Seq::new((3 * frame.len()) as nat, |k: int| tone_map_spec(frame[k / 3])[k % 3])
}

/// The image as bytes: red, green and blue of every pixel, row by row
/// from the top left.
pub open spec fn render_spec(width: int, height: int, tan_half_fov: Fixed) -> Seq<u8> {
    tone_frame_spec(frame_spec(width, height, tan_half_fov))
}

/// One channel of a tone-mapped pixel that is neither negative nor above
/// the divisor is not clamped: it is `255 * c / m` rounded to the nearest
/// whole number.  Zero maps to 0, the divisor itself to 255, and a larger
/// channel to no smaller byte.
pub proof fn lemma_tone_channel(c: Fixed, d: Fixed, m: Fixed)
    requires
        m.raw >= ONE_RAW,
        0 <= c.raw <= d.raw <= m.raw,
    ensures
        tone_channel_spec(c, m) == (510 * c.raw + m.raw) / (2 * m.raw),
        tone_channel_spec(c, m) <= tone_channel_spec(d, m),
        tone_channel_spec(Fixed { raw: 0 }, m) == 0,
        tone_channel_spec(m, m) == 255,
{
    let k = 2 * m.raw;
    vstd::arithmetic::div_mod::lemma_fundamental_div_mod_converse(511 * m.raw, k, 255, m.raw as int);
    vstd::arithmetic::div_mod::lemma_fundamental_div_mod_converse(m.raw as int, k, 0, m.raw as int);
    vstd::arithmetic::div_mod::lemma_div_is_ordered(510 * c.raw + m.raw, 510 * d.raw + m.raw, k);
    vstd::arithmetic::div_mod::lemma_div_is_ordered(510 * d.raw + m.raw, 511 * m.raw, k);
    vstd::arithmetic::div_mod::lemma_div_is_ordered(m.raw as int, 510 * c.raw + m.raw, k);
}

/// With a vertical field of view of a right angle (tangent one), the
/// primary ray through every pixel of an image of at most `2^14` pixels
/// either way has a nearly unit direction.
pub proof fn lemma_primary_ray_is_unit(pixel: int, width: int, height: int)
    requires
        0 < width <= 0x4000,
        0 < height <= 0x4000,
        0 <= pixel < width * height,
    ensures
        primary_ray_spec(pixel, width, height, Fixed { raw: ONE_RAW }).nearly_unit(),
{
    let s = ONE_RAW as int;
    let one = Fixed { raw: ONE_RAW };
    let d = primary_direction_spec(pixel, width, height, one);
    let column = pixel % width;
    assert(width * height <= 0x1000_0000) by (nonlinear_arith)
        requires
            0 < width <= 0x4000,
            0 < height <= 0x4000,
    ;
    lemma_half_of_whole(1);
    lemma_half_of_whole(width);
    lemma_half_of_whole(height);
    assert(Fixed::ratio(1, 2).raw == 0x8000_0000);
    // dx
    assert(Fixed::whole(column).raw == column * s);
    assert(d.x.raw == column * s + 0x8000_0000 - width * 0x8000_0000);
    // dy: the row, not rounded, lies in [0, height]
    let w = Fixed::whole(width);
    let row = Fixed::whole(pixel).quotient(w);
    assert(Fixed::whole(pixel).raw == pixel * s);
    let top = (pixel * s) * s;
    assert(0 <= top <= (height * s) * (width * s)) by (nonlinear_arith)
        requires
            0 <= pixel < width * height,
            top == (pixel * s) * s,
            s > 0,
    ;
    assert(width * s > 0) by (nonlinear_arith)
        requires
            width > 0,
            s > 0,
    ;
    vstd::arithmetic::div_mod::lemma_div_multiples_vanish(height * s, width * s);
    vstd::arithmetic::div_mod::lemma_div_is_ordered(top, (height * s) * (width * s), width * s);
    vstd::arithmetic::div_mod::lemma_div_is_ordered(0, top, width * s);
    assert(0int / (width * s) == 0) by {
        vstd::arithmetic::div_mod::lemma_div_multiples_vanish(0, width * s);
        assert(0 * (width * s) == 0);
    }
    assert(0 <= top / (width * s) <= height * s);
    assert(row.raw == top / (width * s));
    assert(d.y.raw == -(row.raw + 0x8000_0000) + height * 0x8000_0000);
    // dz
    lemma_product_with_one(Fixed::whole(2));
    assert(-(height * s) * s == (-(height * 0x8000_0000)) * (2 * s)) by (nonlinear_arith)
        requires
            s == 0x1_0000_0000,
    ;
    vstd::arithmetic::div_mod::lemma_div_multiples_vanish(-(height * 0x8000_0000), 2 * s);
    assert(d.z.raw == -(height * 0x8000_0000));
    lemma_long_as_component(d);
    lemma_unit_is_nearly_unit(d);
}

/// The unit direction of the primary ray through a pixel.
pub fn primary_ray(pixel: u64, width: u32, height: u32, tan_half_fov: Fixed) -> (d: Vec3)
    requires
        width > 0,
    ensures
        d == primary_ray_spec(pixel as int, width as int, height as int, tan_half_fov),
        tan_half_fov.raw == ONE_RAW && width <= 0x4000 && 0 < height <= 0x4000 && pixel < width
            * height ==> d.nearly_unit(),
{
    proof {
        if tan_half_fov.raw == ONE_RAW && width <= 0x4000 && 0 < height <= 0x4000 && pixel < width
            * height {
            lemma_primary_ray_is_unit(pixel as int, width as int, height as int);
        }
    }
    let half: Fixed = Fixed::from_ratio(1, 2);
    let two: Fixed = Fixed::from_int(2);
    let w: Fixed = Fixed::from_u64(width as u64);
    let h: Fixed = Fixed::from_u64(height as u64);
    let direction_x: Fixed = Fixed::from_u64(pixel % (width as u64)) + half - w / two;
    let direction_y: Fixed = (Fixed::from_u64(pixel) / w + half).neg() + h / two;
    let direction_z: Fixed = h.neg() / (two * tan_half_fov);
    Vec3 { x: direction_x, y: direction_y, z: direction_z }.normalized()
}

/// One channel of a tone-mapped pixel.
fn tone_channel(c: Fixed, m: Fixed) -> (b: u8)
    requires
        m.raw >= ONE_RAW,
    ensures
        b == tone_channel_spec(c, m),
{
    let numerator: i128 = 510 * (c.raw as i128) + m.raw as i128;
    let rounded: i128 = floor_div_wide(numerator, 2 * (m.raw as i128));
    if rounded < 0 {
        0
    } else if rounded > 255 {
        255
    } else {
        rounded as u8
    }
}

/// A radiance as the three bytes of a pixel.
pub fn tone_map(color: &Vec3) -> (rgb: [u8; 3])
    ensures
        rgb@ == tone_map_spec(*color),
{
    let m: Fixed = color.y.max(color.z).max(color.x).max(Fixed::one());
    [tone_channel(color.x, m), tone_channel(color.y, m), tone_channel(color.z, m)]
}

/// Casts the primary ray of every pixel.
pub fn render_frame(width: u32, height: u32, tan_half_fov: Fixed) -> (frame: Vec<Vec3>)
    ensures
        frame@ == frame_spec(width as int, height as int, tan_half_fov),
{
    let count: u64 = pixel_count(width, height);
    let camera: Vec3 = Vec3 { x: Fixed::zero(), y: Fixed::zero(), z: Fixed::zero() };
    let mut framebuffer: Vec<Vec3> = Vec::new();
    let mut pixel: u64 = 0;
    while pixel < count
        invariant
            count == width * height,
            pixel <= count,
            camera == camera_spec(),
            framebuffer@.len() == pixel,
            forall|q: int|
                0 <= q < pixel ==> framebuffer@[q] == radiance_spec(
                    camera_spec(),
                    primary_ray_spec(q, width as int, height as int, tan_half_fov),
                    0,
                ),
        decreases count - pixel,
    {
        assert(width > 0) by (nonlinear_arith)
            requires
                pixel < width * height,
                pixel >= 0,
                height >= 0,
                width >= 0,
        ;
        let direction: Vec3 = primary_ray(pixel, width, height, tan_half_fov);
        framebuffer.push(cast_ray(&camera, &direction, 0));
        pixel = pixel + 1;
    }
    assert(framebuffer@ =~= frame_spec(width as int, height as int, tan_half_fov));
    framebuffer
}

/// The number of pixels of an image.
fn pixel_count(width: u32, height: u32) -> (n: u64)
    ensures
        n == width * height,
{
    assert(width * height <= 0xffff_ffff * 0xffff_ffff) by (nonlinear_arith)
        requires
            0 <= width <= 0xffff_ffff,
            0 <= height <= 0xffff_ffff,
    ;
    (width as u64) * (height as u64)
}

/// Tone-maps every pixel of a frame.
pub fn tone_frame(frame: &Vec<Vec3>) -> (bytes: Vec<u8>)
    ensures
        bytes@ == tone_frame_spec(frame@),
{
    let mut bytes: Vec<u8> = Vec::new();
    let mut pixel: usize = 0;
    while pixel < frame.len()
        invariant
            pixel <= frame@.len(),
            bytes@.len() == 3 * pixel,
            forall|k: int|
                0 <= k < 3 * pixel ==> #[trigger] bytes@[k] == tone_map_spec(frame@[k / 3])[k % 3],
        decreases frame@.len() - pixel,
    {
        let rgb: [u8; 3] = tone_map(&frame[pixel]);
        let ghost before = bytes@;
        bytes.push(rgb[0]);
        bytes.push(rgb[1]);
        bytes.push(rgb[2]);
        proof {
            let mapped = tone_map_spec(frame@[pixel as int]);
            assert(rgb@ == mapped);
            assert(bytes@ == before.push(mapped[0]).push(mapped[1]).push(mapped[2]));
            assert forall|k: int| 0 <= k < 3 * (pixel + 1) implies #[trigger] bytes@[k]
                == tone_map_spec(frame@[k / 3])[k % 3] by {
                if k < 3 * pixel {
                    assert(bytes@[k] == before[k]);
                } else {
                    assert(k / 3 == pixel);
                    assert(k % 3 == k - 3 * pixel);
                }
            }
        }
        pixel = pixel + 1;
    }
    assert(bytes@ =~= tone_frame_spec(frame@));
    bytes
}

/// Renders the scene and tone-maps it to bytes: red, green and blue of
/// every pixel, row by row from the top left.
pub fn render(width: u32, height: u32, tan_half_fov: Fixed) -> (bytes: Vec<u8>)
    ensures
        bytes@ == render_spec(width as int, height as int, tan_half_fov),
        bytes@.len() == 3 * (width * height),
{
    let framebuffer: Vec<Vec3> = render_frame(width, height, tan_half_fov);
    tone_frame(&framebuffer)
}

} // verus!
