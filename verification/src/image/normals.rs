//! What passes between the intersection layer and the shader is regular:
//! surface normals and ray directions are unit vectors, as far as rounding
//! lets them be, and surface points stay near the scene.
use crate::image::optics::{lemma_reflected_direction_is_unit, lemma_refracted_direction_is_unit};
use crate::image::sphere::{
    along_spec, epsilon_spec, far_spec, floor_distance_spec, floor_step_spec, lemma_nearest_is_met,
    meets_floor, nearest_spec, nothing_spec, ray_sphere_spec, reflect_spec, refract_spec,
    scene_spec, sphere_spec,
    sphere_step_spec, Nearest, Sphere, SPHERES,
};
use crate::util::algebra::{
    lemma_distribute, lemma_product_bound, lemma_regroup, lemma_square_bound,
    lemma_square_of_difference,
};
use crate::util::fixed::{int_sqrt, lemma_half_of_whole, lemma_int_sqrt_exists, Fixed, ONE_RAW};
use crate::util::vec3::{
    lemma_long_enough, lemma_nearly_unit_is_bounded, lemma_unit_is_nearly_unit, Vec3,
};
use vstd::prelude::*;

verus! {

/// No component of `v` exceeds `bound` in size.
pub open spec fn within(v: Vec3, bound: int) -> bool {
    &&& -bound * ONE_RAW <= v.x.raw <= bound * ONE_RAW
    &&& -bound * ONE_RAW <= v.y.raw <= bound * ONE_RAW
    &&& -bound * ONE_RAW <= v.z.raw <= bound * ONE_RAW
}

/// One component of the offset of a point on the ray from the centre of a
/// sphere, squared and before rounding: with `w` the rounded `d * t`
/// (`s * w == d * t - p`) and `l` the component of the vector from the
/// origin to the centre, the offset is `w - l`.
proof fn lemma_offset_square(d: int, l: int, t: int, w: int, p: int, s: int)
    requires
        s * w == d * t - p,
    ensures
        (s * s) * ((w - l) * (w - l)) == (t * t) * (d * d) - 2 * ((t * s) * (d * l)) + (s * s) * (l
            * l) - 2 * ((d * t - s * l) * p) + p * p,
{
    let b = d * t - s * l;
    assert(s * (w - l) == b - p) by (nonlinear_arith)
        requires
            s * w == d * t - p,
            b == d * t - s * l,
    ;
    lemma_regroup(s, w - l, s, w - l);
    assert((s * s) * ((w - l) * (w - l)) == (b - p) * (b - p)) by {
        lemma_regroup(s, s, w - l, w - l);
    }
    lemma_square_of_difference(b, p);
    lemma_square_of_difference(d * t, s * l);
    lemma_regroup(d, t, d, t);
    assert((d * d) * (t * t) == (t * t) * (d * d)) by (nonlinear_arith);
    lemma_regroup(d, t, s, l);
    assert((d * s) * (t * l) == (t * s) * (d * l)) by (nonlinear_arith);
    lemma_regroup(s, l, s, l);
}

/// On either meeting point `t = tca +- thc` of the ray with the sphere,
/// `t^2 - 2 * t * tca == thc^2 - tca^2`.
proof fn lemma_chord(tca: int, thc: int, t: int)
    requires
        t == tca + thc || t == tca - thc,
    ensures
        t * t - 2 * (t * tca) == thc * thc - tca * tca,
{
    assert(t * t - 2 * (t * tca) == thc * thc - tca * tca) by (nonlinear_arith)
        requires
            t == tca + thc || t == tca - thc,
    ;
}

/// The squared distance, before rounding, from the centre of a sphere to
/// the point where the ray meets it, in terms of the squared radius and
/// of what every rounding on the way has dropped.
proof fn lemma_offset_length(
    d: (int, int, int),
    l: (int, int, int),
    w: (int, int, int),
    p: (int, int, int),
    t: int,
    tca: int,
    thc: int,
    ll: int,
    tt: int,
    r: int,
    r2: int,
    dropped: (int, int, int, int, int),
    gamma: int,
    s: int,
)
    requires
        s * w.0 == d.0 * t - p.0,
        s * w.1 == d.1 * t - p.1,
        s * w.2 == d.2 * t - p.2,
        d.0 * l.0 + d.1 * l.1 + d.2 * l.2 == s * tca + dropped.0,
        l.0 * l.0 + l.1 * l.1 + l.2 * l.2 == s * ll + dropped.1,
        tca * tca == s * tt + dropped.2,
        thc * thc == (r2 - (ll - tt)) * s - dropped.3,
        r * r == s * r2 + dropped.4,
        d.0 * d.0 + d.1 * d.1 + d.2 * d.2 == s * s + gamma,
        t == tca + thc || t == tca - thc,
    ensures
        (s * s) * ((w.0 - l.0) * (w.0 - l.0) + (w.1 - l.1) * (w.1 - l.1) + (w.2 - l.2) * (w.2 - l.2))
            == (s * s) * (r * r) + (s * s) * (dropped.1 - dropped.2 - dropped.3 - dropped.4) + (t
            * t) * gamma - 2 * ((t * s) * dropped.0) - 2 * ((d.0 * t - s * l.0) * p.0 + (d.1 * t - s
            * l.1) * p.1 + (d.2 * t - s * l.2) * p.2) + (p.0 * p.0 + p.1 * p.1 + p.2 * p.2),
{
    let g = d.0 * d.0 + d.1 * d.1 + d.2 * d.2;
    let e = d.0 * l.0 + d.1 * l.1 + d.2 * l.2;
    let len = l.0 * l.0 + l.1 * l.1 + l.2 * l.2;
    let off = (w.0 - l.0) * (w.0 - l.0) + (w.1 - l.1) * (w.1 - l.1) + (w.2 - l.2) * (w.2 - l.2);
    let mixed = (d.0 * t - s * l.0) * p.0 + (d.1 * t - s * l.1) * p.1 + (d.2 * t - s * l.2) * p.2;
    let squares = p.0 * p.0 + p.1 * p.1 + p.2 * p.2;
    lemma_offset_square(d.0, l.0, t, w.0, p.0, s);
    lemma_offset_square(d.1, l.1, t, w.1, p.1, s);
    lemma_offset_square(d.2, l.2, t, w.2, p.2, s);
    lemma_distribute(
        s * s,
        (w.0 - l.0) * (w.0 - l.0),
        (w.1 - l.1) * (w.1 - l.1),
        (w.2 - l.2) * (w.2 - l.2),
    );
    lemma_distribute(t * t, d.0 * d.0, d.1 * d.1, d.2 * d.2);
    lemma_distribute(t * s, d.0 * l.0, d.1 * l.1, d.2 * l.2);
    lemma_distribute(s * s, l.0 * l.0, l.1 * l.1, l.2 * l.2);
    assert((s * s) * off == (t * t) * g - 2 * ((t * s) * e) + (s * s) * len - 2 * mixed + squares);
    assert((t * t) * g == (t * t) * (s * s) + (t * t) * gamma) by (nonlinear_arith)
        requires
            g == s * s + gamma,
    ;
    assert((t * s) * e == (s * s) * (t * tca) + (t * s) * dropped.0) by (nonlinear_arith)
        requires
            e == s * tca + dropped.0,
    ;
    assert((s * s) * len == (s * s) * (s * ll) + (s * s) * dropped.1) by (nonlinear_arith)
        requires
            len == s * ll + dropped.1,
    ;
    lemma_chord(tca, thc, t);
    assert((r2 - (ll - tt)) * s == s * r2 - s * ll + s * tt) by (nonlinear_arith);
    let x = t * t - 2 * (t * tca) + s * ll;
    assert(x == r * r - dropped.4 - dropped.3 - dropped.2);
    lemma_distribute(s * s, t * t, -2 * (t * tca), s * ll);
    assert((s * s) * (-2 * (t * tca)) == -2 * ((s * s) * (t * tca))) by (nonlinear_arith);
    assert((t * t) * (s * s) == (s * s) * (t * t)) by (nonlinear_arith);
    lemma_distribute(s * s, r * r, -dropped.4 - dropped.3 - dropped.2, 0);
    assert((s * s) * 0 == 0);
    lemma_distribute(s * s, dropped.1 - dropped.2 - dropped.3 - dropped.4, 0, 0);
    lemma_distribute(s * s, dropped.1, -dropped.4 - dropped.3 - dropped.2, 0);
}

/// Epsilon is `4294967 * 2^-32`, a little less than 0.001.
pub proof fn lemma_epsilon()
    ensures
        epsilon_spec().raw == 4294967,
{
    let s = ONE_RAW as int;
    assert(s * s == (1000 * s) * 4294967 + 296 * s) by (nonlinear_arith)
        requires
            s == 0x1_0000_0000,
    ;
    vstd::arithmetic::div_mod::lemma_fundamental_div_mod_converse(
        s * s,
        1000 * s,
        4294967,
        296 * s,
    );
}

/// The point where a ray meets a sphere lies on the sphere, up to
/// rounding, and the normal there is nearly unit.
///
/// This holds for a nearly unit direction, an origin within 1024 of the
/// zero point in every coordinate, a sphere of radius between 1 and 32
/// whose centre is within 32 of the zero point in every coordinate, and a
/// meeting point nearer than 1000.  The exact squared distance of the
/// point from the centre then differs from the squared radius by at most
/// `2^-8`.
pub proof fn lemma_sphere_normal_is_unit(origin: Vec3, direction: Vec3, sphere: Sphere)
    requires
        direction.nearly_unit(),
        within(origin, 1024),
        within(sphere.center, 32),
        ONE_RAW <= sphere.radius.raw <= 32 * ONE_RAW,
        ray_sphere_spec(origin, direction, sphere).0,
        ray_sphere_spec(origin, direction, sphere).1.raw < 1000 * ONE_RAW,
    ensures
        ({
            let t = ray_sphere_spec(origin, direction, sphere).1;
            let offset = along_spec(origin, direction, t).difference(sphere.center);
            &&& -0x100_0000 * ONE_RAW <= offset.exact_dot(offset) - sphere.radius.raw
                * sphere.radius.raw <= 0x100_0000 * ONE_RAW
            &&& offset.unit().nearly_unit()
        }),
{
    let s = ONE_RAW as int;
    let sq = s * s;
    let cube = s * s * s;
    lemma_nearly_unit_is_bounded(direction);
    let d = (direction.x.raw as int, direction.y.raw as int, direction.z.raw as int);
    let to_center = sphere.center.difference(origin);
    let l = (to_center.x.raw as int, to_center.y.raw as int, to_center.z.raw as int);
    assert(l.0 == sphere.center.x.raw - origin.x.raw);
    assert(l.1 == sphere.center.y.raw - origin.y.raw);
    assert(l.2 == sphere.center.z.raw - origin.z.raw);
    // tca
    let e = direction.exact_dot(to_center);
    lemma_product_bound(d.0, l.0, 2 * s, 1056 * s);
    lemma_product_bound(d.1, l.1, 2 * s, 1056 * s);
    lemma_product_bound(d.2, l.2, 2 * s, 1056 * s);
    assert((2 * s) * (1056 * s) == 2112 * sq) by (nonlinear_arith)
        requires
            sq == s * s,
    ;
    let projection = direction.dot(to_center);
    let tca = e / s;
    assert(-6336 * sq <= e <= 6336 * sq);
    assert(6336 * sq == (6336 * s) * s && -6336 * sq == (-6336 * s) * s) by (nonlinear_arith)
        requires
            sq == s * s,
    ;
    vstd::arithmetic::div_mod::lemma_div_multiples_vanish(6336 * s, s);
    vstd::arithmetic::div_mod::lemma_div_multiples_vanish(-6336 * s, s);
    vstd::arithmetic::div_mod::lemma_div_is_ordered(e, (6336 * s) * s, s);
    vstd::arithmetic::div_mod::lemma_div_is_ordered((-6336 * s) * s, e, s);
    assert(-6336 * s <= tca <= 6336 * s);
    assert(projection.raw == tca);
    // L . L
    let len = to_center.exact_dot(to_center);
    lemma_product_bound(l.0, l.0, 1056 * s, 1056 * s);
    lemma_product_bound(l.1, l.1, 1056 * s, 1056 * s);
    lemma_product_bound(l.2, l.2, 1056 * s, 1056 * s);
    assert(0 <= l.0 * l.0 && 0 <= l.1 * l.1 && 0 <= l.2 * l.2) by (nonlinear_arith);
    assert((1056 * s) * (1056 * s) == 1115136 * sq) by (nonlinear_arith)
        requires
            sq == s * s,
    ;
    let ll = len / s;
    assert(3345408 * sq == (3345408 * s) * s) by (nonlinear_arith)
        requires
            sq == s * s,
    ;
    vstd::arithmetic::div_mod::lemma_div_multiples_vanish(3345408 * s, s);
    vstd::arithmetic::div_mod::lemma_div_is_ordered(len, (3345408 * s) * s, s);
    assert(0 <= ll <= 3345408 * s);
    assert(to_center.dot(to_center).raw == ll);
    // tca^2
    lemma_product_bound(tca, tca, 6336 * s, 6336 * s);
    assert(0 <= tca * tca) by (nonlinear_arith);
    assert((6336 * s) * (6336 * s) == (40144896 * s) * s) by (nonlinear_arith);
    let tt = (tca * tca) / s;
    vstd::arithmetic::div_mod::lemma_div_multiples_vanish(40144896 * s, s);
    vstd::arithmetic::div_mod::lemma_div_is_ordered(tca * tca, (40144896 * s) * s, s);
    assert(0 <= tt <= 40144896 * s);
    assert(projection.product(projection).raw == tt);
    let distance2 = to_center.dot(to_center).difference(projection.product(projection));
    assert(distance2.raw == ll - tt);
    // r^2
    let r = sphere.radius.raw as int;
    lemma_product_bound(r, r, 32 * s, 32 * s);
    assert(s * s <= r * r) by (nonlinear_arith)
        requires
            0 < s <= r,
    ;
    assert((32 * s) * (32 * s) == (1024 * s) * s) by (nonlinear_arith);
    let r2 = (r * r) / s;
    vstd::arithmetic::div_mod::lemma_div_multiples_vanish(1024 * s, s);
    vstd::arithmetic::div_mod::lemma_div_is_ordered(r * r, (1024 * s) * s, s);
    assert(0 <= r2 <= 1024 * s);
    let radius2 = sphere.radius.product(sphere.radius);
    assert(radius2.raw == r2);
    // the chord
    assert(distance2.raw <= radius2.raw);
    let inside = radius2.difference(distance2);
    assert(inside.raw == r2 - (ll - tt));
    lemma_int_sqrt_exists(inside.raw * s);
    let thc = int_sqrt(inside.raw * s);
    assert(thc <= 6400 * s) by (nonlinear_arith)
        requires
            thc >= 0,
            thc * thc <= inside.raw * s,
            0 <= inside.raw <= 40145920 * s,
            s > 0,
    ;
    assert(inside.root().raw == thc);
    assert((thc + 1) * (thc + 1) == thc * thc + 2 * thc + 1) by (nonlinear_arith);
    let left = inside.raw * s - thc * thc;
    assert(0 <= left <= 2 * thc);
    let t = ray_sphere_spec(origin, direction, sphere).1.raw as int;
    lemma_epsilon();
    assert(t == tca - thc || t == tca + thc);
    assert(0 < t < 1000 * s);
    // the point
    let scaled = direction.scaled(Fixed { raw: t as i64 });
    let w = (scaled.x.raw as int, scaled.y.raw as int, scaled.z.raw as int);
    lemma_product_bound(d.0, t, 2 * s, 1000 * s);
    lemma_product_bound(d.1, t, 2 * s, 1000 * s);
    lemma_product_bound(d.2, t, 2 * s, 1000 * s);
    assert((2 * s) * (1000 * s) == (2000 * s) * s) by (nonlinear_arith);
    vstd::arithmetic::div_mod::lemma_div_multiples_vanish(2000 * s, s);
    vstd::arithmetic::div_mod::lemma_div_multiples_vanish(-2000 * s, s);
    assert(-((2000 * s) * s) == (-2000 * s) * s) by (nonlinear_arith);
    vstd::arithmetic::div_mod::lemma_div_is_ordered(d.0 * t, (2000 * s) * s, s);
    vstd::arithmetic::div_mod::lemma_div_is_ordered(d.1 * t, (2000 * s) * s, s);
    vstd::arithmetic::div_mod::lemma_div_is_ordered(d.2 * t, (2000 * s) * s, s);
    vstd::arithmetic::div_mod::lemma_div_is_ordered((-2000 * s) * s, d.0 * t, s);
    vstd::arithmetic::div_mod::lemma_div_is_ordered((-2000 * s) * s, d.1 * t, s);
    vstd::arithmetic::div_mod::lemma_div_is_ordered((-2000 * s) * s, d.2 * t, s);
    assert(w.0 == (d.0 * t) / s && w.1 == (d.1 * t) / s && w.2 == (d.2 * t) / s);
    let p = ((d.0 * t) % s, (d.1 * t) % s, (d.2 * t) % s);
    let offset = along_spec(origin, direction, Fixed { raw: t as i64 }).difference(sphere.center);
    assert(offset.x.raw == w.0 - l.0 && offset.y.raw == w.1 - l.1 && offset.z.raw == w.2 - l.2);
    let gamma = direction.exact_dot(direction) - s * s;
    let dropped = (e % s, len % s, (tca * tca) % s, left, (r * r) % s);
    assert((r2 - (ll - tt)) * s == inside.raw * s);
    lemma_offset_length(d, l, w, p, t, tca, thc, ll, tt, r, r2, dropped, gamma, s);
    let off = offset.exact_dot(offset);
    let mixed = (d.0 * t - s * l.0) * p.0 + (d.1 * t - s * l.1) * p.1 + (d.2 * t - s * l.2) * p.2;
    let squares = p.0 * p.0 + p.1 * p.1 + p.2 * p.2;
    assert(sq * off == sq * (r * r) + sq * (dropped.1 - dropped.2 - dropped.3 - dropped.4) + (t
        * t) * gamma - 2 * ((t * s) * dropped.0) - 2 * mixed + squares);
    // what was dropped, in cubes of the scale
    lemma_product_bound(sq, dropped.1 - dropped.2 - dropped.3 - dropped.4, sq, 12802 * s);
    assert(sq * (12802 * s) == 12802 * cube) by (nonlinear_arith)
        requires
            sq == s * s,
            cube == s * s * s,
    ;
    lemma_product_bound(t, t, 1000 * s, 1000 * s);
    assert((1000 * s) * (1000 * s) == 1000000 * sq) by (nonlinear_arith)
        requires
            sq == s * s,
    ;
    lemma_product_bound(t * t, gamma, 1000000 * sq, 16 * s);
    assert((1000000 * sq) * (16 * s) == 16000000 * cube) by (nonlinear_arith)
        requires
            sq == s * s,
            cube == s * s * s,
    ;
    lemma_product_bound(t, s, 1000 * s, s);
    assert((1000 * s) * s == 1000 * sq) by (nonlinear_arith)
        requires
            sq == s * s,
    ;
    lemma_product_bound(t * s, dropped.0, 1000 * sq, s);
    assert((1000 * sq) * s == 1000 * cube) by (nonlinear_arith)
        requires
            sq == s * s,
            cube == s * s * s,
    ;
    lemma_product_bound(s, l.0, s, 1056 * s);
    lemma_product_bound(s, l.1, s, 1056 * s);
    lemma_product_bound(s, l.2, s, 1056 * s);
    assert(s * (1056 * s) == 1056 * sq) by (nonlinear_arith)
        requires
            sq == s * s,
    ;
    assert((2000 * s) * s == 2000 * sq) by (nonlinear_arith)
        requires
            sq == s * s,
    ;
    lemma_product_bound(d.0 * t - s * l.0, p.0, 3056 * sq, s);
    lemma_product_bound(d.1 * t - s * l.1, p.1, 3056 * sq, s);
    lemma_product_bound(d.2 * t - s * l.2, p.2, 3056 * sq, s);
    assert((3056 * sq) * s == 3056 * cube) by (nonlinear_arith)
        requires
            sq == s * s,
            cube == s * s * s,
    ;
    lemma_product_bound(p.0, p.0, s, s);
    lemma_product_bound(p.1, p.1, s, s);
    lemma_product_bound(p.2, p.2, s, s);
    assert(3 * sq <= cube) by (nonlinear_arith)
        requires
            s >= 3,
            sq == s * s,
            cube == s * s * s,
    ;
    assert(-16033140 * cube <= sq * off - sq * (r * r) <= 16033140 * cube);
    assert(sq * (off - r * r) == sq * off - sq * (r * r)) by (nonlinear_arith);
    assert(-16033140 * s <= off - r * r <= 16033140 * s) by (nonlinear_arith)
        requires
            -16033140 * cube <= sq * (off - r * r) <= 16033140 * cube,
            sq == s * s,
            cube == s * s * s,
            s > 0,
    ;
    // the offset is long enough to be normalised
    assert(offset.squares_fit());
    lemma_product_bound(offset.x.raw as int, offset.x.raw as int, 3056 * s, 3056 * s);
    lemma_product_bound(offset.y.raw as int, offset.y.raw as int, 3056 * s, 3056 * s);
    lemma_product_bound(offset.z.raw as int, offset.z.raw as int, 3056 * s, 3056 * s);
    assert((3056 * s) * (3056 * s) == 9339136 * sq) by (nonlinear_arith)
        requires
            sq == s * s,
    ;
    assert(sq == 0x1_0000_0000_0000_0000);
    assert(offset.squared().raw == off / s);
    assert(off >= 0x4000_0000 * s);
    lemma_long_enough(offset);
    lemma_unit_is_nearly_unit(offset);
}

/// Every sphere of the scene has a radius between 1 and 32 and a centre
/// within 32 of the zero point in every coordinate.
pub proof fn lemma_scene_sphere(i: int)
    requires
        0 <= i < SPHERES,
    ensures
        within(sphere_spec(i).center, 32),
        ONE_RAW <= sphere_spec(i).radius.raw <= 32 * ONE_RAW,
{
    lemma_half_of_whole(-36);
    lemma_half_of_whole(-32);
    lemma_half_of_whole(-24);
    lemma_half_of_whole(-6);
    lemma_half_of_whole(-3);
    lemma_half_of_whole(-2);
    lemma_half_of_whole(-1);
    lemma_half_of_whole(0);
    lemma_half_of_whole(2);
    lemma_half_of_whole(3);
    lemma_half_of_whole(4);
    lemma_half_of_whole(10);
    lemma_half_of_whole(14);
}

/// Where a ray meets the floor, the surface point lies on the plane
/// `y = -4` up to two units of the last place.
pub proof fn lemma_floor_point(origin: Vec3, direction: Vec3, limit: Fixed)
    requires
        within(origin, 1024),
        direction.bounded_by_two(),
        meets_floor(origin, direction, limit),
    ensures
        -4 * ONE_RAW - 2 <= along_spec(
            origin,
            direction,
            floor_distance_spec(origin, direction),
        ).y.raw <= -4 * ONE_RAW + 2,
{
    let s = ONE_RAW as int;
    lemma_epsilon();
    lemma_half_of_whole(4);
    let o = origin.y.raw as int;
    let a = -(o + 4 * s);
    let dy = direction.y.raw as int;
    let t = floor_distance_spec(origin, direction).raw as int;
    assert(origin.y.sum(Fixed::whole(4)).negation().raw == a);
    assert(dy != 0);
    if dy > 0 {
        assert(t == (a * s) / dy);
        vstd::arithmetic::div_mod::lemma_fundamental_div_mod(a * s, dy);
        vstd::arithmetic::div_mod::lemma_mod_bound(a * s, dy);
    } else {
        assert(t == (-(a * s)) / (-dy));
        vstd::arithmetic::div_mod::lemma_fundamental_div_mod(-(a * s), -dy);
        vstd::arithmetic::div_mod::lemma_mod_bound(-(a * s), -dy);
        assert((-dy) * t == -(dy * t)) by (nonlinear_arith);
    }
    assert(a * s - 2 * s <= dy * t <= a * s + 2 * s);
    assert(a * s - 2 * s == (a - 2) * s && a * s + 2 * s == (a + 2) * s) by (nonlinear_arith);
    vstd::arithmetic::div_mod::lemma_div_multiples_vanish(a - 2, s);
    vstd::arithmetic::div_mod::lemma_div_multiples_vanish(a + 2, s);
    vstd::arithmetic::div_mod::lemma_div_is_ordered((a - 2) * s, dy * t, s);
    vstd::arithmetic::div_mod::lemma_div_is_ordered(dy * t, (a + 2) * s, s);
}

/// What a hit of the scene hands to the shader is regular: for a ray of
/// nearly unit direction from within 1024 of the zero point in every
/// coordinate, the surface normal is nearly unit, the surface point lies
/// again within 1024 of the zero point, and the index of refraction of
/// the material lies between one and two.
pub proof fn lemma_hit_is_regular(origin: Vec3, direction: Vec3)
    requires
        direction.nearly_unit(),
        within(origin, 1024),
        scene_spec(origin, direction).hit,
    ensures
        scene_spec(origin, direction).normal.nearly_unit(),
        within(scene_spec(origin, direction).point, 1024),
        ONE_RAW <= scene_spec(origin, direction).material.refractive_index.raw <= 2 * ONE_RAW,
{
    let s = ONE_RAW as int;
    lemma_half_of_whole(3);
    let nearest = nearest_spec(origin, direction, SPHERES as nat);
    lemma_nearest_is_met(origin, direction, SPHERES as nat);
    lemma_nearly_unit_is_bounded(direction);
    lemma_half_of_whole(0);
    lemma_half_of_whole(1);
    lemma_half_of_whole(10);
    lemma_half_of_whole(-10);
    lemma_half_of_whole(-30);
    lemma_half_of_whole(1000);
    assert(far_spec().raw == 1000 * s);
    assert(nearest != nothing_spec());
    if meets_floor(origin, direction, nothing_spec().distance) && nearest == floor_step_spec(
        origin,
        direction,
        nothing_spec(),
    ) {
        lemma_floor_point(origin, direction, nothing_spec().distance);
        assert(nearest.normal.exact_dot(nearest.normal) == s * s) by (nonlinear_arith)
            requires
                nearest.normal.x.raw == 0,
                nearest.normal.y.raw == s,
                nearest.normal.z.raw == 0,
        ;
    } else {
        let i = choose|i: int|
            0 <= i < SPHERES && (#[trigger] ray_sphere_spec(origin, direction, sphere_spec(i))).0
                && nearest == sphere_step_spec(
                origin,
                direction,
                Nearest { distance: Fixed { raw: i64::MAX }, ..nearest },
                sphere_spec(i),
            );
        let ball = sphere_spec(i);
        let t = ray_sphere_spec(origin, direction, ball).1;
        lemma_scene_sphere(i);
        assert(nearest.distance == t);
        lemma_sphere_normal_is_unit(origin, direction, ball);
        let offset = along_spec(origin, direction, t).difference(ball.center);
        let off = offset.exact_dot(offset);
        let r = ball.radius.raw as int;
        lemma_product_bound(r, r, 32 * s, 32 * s);
        assert((32 * s) * (32 * s) == 1024 * (s * s)) by (nonlinear_arith);
        assert(0x100_0000 * s <= s * s) by (nonlinear_arith)
            requires
                s >= 0x100_0000,
        ;
        assert((33 * s) * (33 * s) == 1089 * (s * s)) by (nonlinear_arith);
        let (x, y, z) = (offset.x.raw as int, offset.y.raw as int, offset.z.raw as int);
        assert(0 <= x * x && 0 <= y * y && 0 <= z * z) by (nonlinear_arith);
        lemma_square_bound(x, 33 * s);
        lemma_square_bound(y, 33 * s);
        lemma_square_bound(z, 33 * s);
    }
}

/// The rays that the shader casts on are regular again: where a ray of
/// nearly unit direction from within 1024 of the zero point hits the
/// scene, the reflected and the refracted ray start within 1024 of the
/// zero point and have nearly unit directions.  The primary rays being
/// regular, so is every ray that the shader follows.
pub proof fn lemma_secondary_rays_are_regular(origin: Vec3, direction: Vec3)
    requires
        direction.nearly_unit(),
        within(origin, 1024),
        scene_spec(origin, direction).hit,
    ensures
        ({
            let seen = scene_spec(origin, direction);
            &&& within(seen.point, 1024)
            &&& reflect_spec(direction, seen.normal).unit().nearly_unit()
            &&& refract_spec(
                direction,
                seen.normal,
                seen.material.refractive_index,
                Fixed::whole(1),
            ).unit().nearly_unit()
        }),
{
    let seen = scene_spec(origin, direction);
    lemma_hit_is_regular(origin, direction);
    lemma_half_of_whole(1);
    lemma_reflected_direction_is_unit(direction, seen.normal);
    lemma_refracted_direction_is_unit(
        direction,
        seen.normal,
        seen.material.refractive_index,
        Fixed::whole(1),
    );
}

} // verus!
