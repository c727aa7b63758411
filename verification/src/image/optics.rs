//! What rounding leaves of the laws of reflection and refraction.
use crate::image::sphere::{
    cos_incidence, lemma_turned_normal, reflect_spec, refract_discriminant, refract_spec,
    total_reflection_spec, transmit_spec,
};
use crate::util::fixed::{
    int_sqrt, is_int_sqrt, lemma_int_sqrt_exists, lemma_product_with_one, Fixed, ONE_RAW,
};
use crate::util::algebra::{
    lemma_distribute, lemma_product_bound, lemma_regroup, lemma_square_bound,
    lemma_square_of_difference, lemma_whole_product,
};
use crate::util::vec3::{
    lemma_cauchy_schwarz, lemma_long_enough, lemma_nearly_unit_is_bounded,
    lemma_nearly_unit_length, lemma_unit_is_nearly_unit, Vec3,
};
use vstd::prelude::*;

verus! {

/// Two numbers differ by at most `2^-15`.
pub open spec fn close(a: Fixed, b: Fixed) -> bool {
    -0x2_0000 <= a.raw - b.raw <= 0x2_0000
}

/// A number other than zero divided by itself is one.
pub proof fn lemma_self_quotient(a: Fixed)
    requires
        a.raw != 0,
    ensures
        a.quotient(a) == (Fixed { raw: ONE_RAW }),
{
    if a.raw > 0 {
        assert(a.raw * ONE_RAW == ONE_RAW * a.raw) by (nonlinear_arith);
        vstd::arithmetic::div_mod::lemma_div_multiples_vanish(ONE_RAW as int, a.raw as int);
    } else {
        assert(-(a.raw * ONE_RAW) == ONE_RAW * (-a.raw)) by (nonlinear_arith);
        vstd::arithmetic::div_mod::lemma_div_multiples_vanish(ONE_RAW as int, -a.raw as int);
    }
}

/// For `0 <= c <= 1`, the rounded square root of the rounded square of `c`
/// is not above `c` and less than `2^-16` below it.
pub proof fn lemma_root_of_square(c: Fixed)
    requires
        0 <= c.raw <= ONE_RAW,
    ensures
        0 <= c.product(c).raw <= ONE_RAW,
        0 <= c.raw - c.product(c).root().raw <= 0x1_0000,
{
    let x = c.raw as int;
    let one = ONE_RAW as int;
    assert(0 <= x * x <= one * one) by (nonlinear_arith)
        requires
            0 <= x <= one,
    ;
    let cc = (x * x) / one;
    assert(cc <= one) by {
        vstd::arithmetic::div_mod::lemma_div_is_ordered(x * x, one * one, one);
        vstd::arithmetic::div_mod::lemma_div_multiples_vanish(one, one);
    }
    assert(cc >= 0);
    assert(c.product(c).raw == cc);
    lemma_int_sqrt_exists(cc * one);
    let s = int_sqrt(cc * one);
    assert(s <= x) by (nonlinear_arith)
        requires
            0 <= s,
            0 <= x,
            s * s <= cc * one,
            cc * one <= x * x,
    ;
    assert(s < 0x1_0000_0000_0000);
    assert(c.product(c).root().raw == s);
    assert(x * x < (cc + 1) * one);
    assert(x - s <= 0x1_0000) by (nonlinear_arith)
        requires
            0 <= s <= x,
            x * x < cc * one + one,
            cc * one < (s + 1) * (s + 1),
            one == 0x1_0000_0000,
    ;
}

/// A number of at most two in size, scaled by at most `2^-16`, stays
/// within `2^-15` of zero.
proof fn lemma_small_multiple(n: Fixed, delta: Fixed)
    requires
        -2 * ONE_RAW <= n.raw <= 2 * ONE_RAW,
        0 <= delta.raw <= 0x1_0000,
    ensures
        -0x2_0000 <= n.product(delta).raw <= 0x2_0000,
{
    let one = ONE_RAW as int;
    let p = n.raw * delta.raw;
    assert(-0x2_0000 * one <= p <= 0x2_0000 * one) by (nonlinear_arith)
        requires
            -2 * one <= n.raw <= 2 * one,
            0 <= delta.raw <= 0x1_0000,
            p == n.raw * delta.raw,
    ;
}

/// Between media of equal index a ray that enters against the normal goes
/// straight on, up to rounding: for a normal of at most two in every
/// component and a cosine of incidence in [0, 1], no component moves by
/// more than `2^-15`, and there is no total internal reflection.  Head on
/// (cosine one) the direction is kept exactly.
pub proof fn lemma_transmit_straight(direction: Vec3, normal: Vec3, cos: Fixed)
    requires
        normal.bounded_by_two(),
        0 <= cos.raw <= ONE_RAW,
    ensures
        refract_discriminant(Fixed { raw: ONE_RAW }, cos).raw >= 0,
        close(transmit_spec(direction, normal, Fixed { raw: ONE_RAW }, cos).x, direction.x),
        close(transmit_spec(direction, normal, Fixed { raw: ONE_RAW }, cos).y, direction.y),
        close(transmit_spec(direction, normal, Fixed { raw: ONE_RAW }, cos).z, direction.z),
        cos.raw == ONE_RAW ==> transmit_spec(direction, normal, Fixed { raw: ONE_RAW }, cos)
            == direction,
{
    let one = Fixed { raw: ONE_RAW };
    assert(Fixed::whole(1) == one);
    lemma_root_of_square(cos);
    let cc = cos.product(cos);
    lemma_product_with_one(one);
    lemma_product_with_one(one.difference(cc));
    let k = refract_discriminant(one, cos);
    assert(k == cc);
    lemma_product_with_one(cos);
    let delta = one.product(cos).difference(k.root());
    assert(0 <= delta.raw <= 0x1_0000);
    lemma_product_with_one(direction.x);
    lemma_product_with_one(direction.y);
    lemma_product_with_one(direction.z);
    lemma_small_multiple(normal.x, delta);
    lemma_small_multiple(normal.y, delta);
    lemma_small_multiple(normal.z, delta);
    if cos.raw == ONE_RAW {
        assert(cc.raw == ONE_RAW) by {
            vstd::arithmetic::div_mod::lemma_div_multiples_vanish(ONE_RAW as int, ONE_RAW as int);
            assert(cos.raw * cos.raw == ONE_RAW * ONE_RAW) by (nonlinear_arith)
                requires
                    cos.raw == ONE_RAW,
            ;
        }
        assert(is_int_sqrt(ONE_RAW * ONE_RAW, ONE_RAW as int));
        crate::util::fixed::lemma_int_sqrt_unique(ONE_RAW * ONE_RAW, ONE_RAW as int);
        assert(delta.raw == 0);
        assert(normal.x.raw * 0 == 0 && normal.y.raw * 0 == 0 && normal.z.raw * 0 == 0);
    }
}

/// Between media of equal index, refraction is the identity up to
/// rounding, from whichever side the ray comes: for a nearly unit normal,
/// no component of the refracted direction differs from that of the
/// incident direction by more than `2^-15`, and the sentinel of total
/// internal reflection does not come.
pub proof fn lemma_refract_equal_indices(direction: Vec3, normal: Vec3, eta: Fixed)
    requires
        eta.raw != 0,
        normal.nearly_unit(),
    ensures
        close(refract_spec(direction, normal, eta, eta).x, direction.x),
        close(refract_spec(direction, normal, eta, eta).y, direction.y),
        close(refract_spec(direction, normal, eta, eta).z, direction.z),
{
    lemma_self_quotient(eta);
    lemma_nearly_unit_is_bounded(normal);
    let cos = cos_incidence(direction, normal);
    assert(Fixed::whole(1).raw == ONE_RAW && Fixed::whole(-1).raw == -ONE_RAW);
    if cos.raw < 0 {
        lemma_turned_normal(direction, normal);
        let turned = normal.negation();
        let again = cos_incidence(direction, turned);
        assert(again.raw > 0);
        lemma_transmit_straight(direction, turned, again);
        assert(refract_spec(direction, turned, eta, eta) == transmit_spec(
            direction,
            turned,
            eta.quotient(eta),
            again,
        ));
    } else {
        lemma_transmit_straight(direction, normal, cos);
    }
}

/// The exact inner product of two vectors of at most two in every
/// component is at most twelve in size, and its rounding is not clamped.
pub proof fn lemma_exact_dot_bound(a: Vec3, b: Vec3)
    requires
        a.bounded_by_two(),
        b.bounded_by_two(),
    ensures
        -12 * (ONE_RAW * ONE_RAW) <= a.exact_dot(b) <= 12 * (ONE_RAW * ONE_RAW),
        a.dot(b).raw == a.exact_dot(b) / ONE_RAW as int,
{
    let two = 2 * ONE_RAW as int;
    lemma_product_bound(a.x.raw as int, b.x.raw as int, two, two);
    lemma_product_bound(a.y.raw as int, b.y.raw as int, two, two);
    lemma_product_bound(a.z.raw as int, b.z.raw as int, two, two);
    assert(two * two == 4 * (ONE_RAW * ONE_RAW)) by (nonlinear_arith)
        requires
            two == 2 * ONE_RAW,
    ;
}

/// The inner product of two nearly unit vectors is at most one in size,
/// up to 16 units of the last place.
pub proof fn lemma_dot_of_nearly_unit(a: Vec3, b: Vec3)
    requires
        a.nearly_unit(),
        b.nearly_unit(),
    ensures
        -(ONE_RAW * ONE_RAW + 16 * ONE_RAW) <= a.exact_dot(b) <= ONE_RAW * ONE_RAW + 16 * ONE_RAW,
        -(ONE_RAW + 16) <= a.dot(b).raw <= ONE_RAW + 16,
        a.dot(b).raw == a.exact_dot(b) / ONE_RAW as int,
{
    let s = ONE_RAW as int;
    let bound = s * s + 16 * s;
    lemma_nearly_unit_is_bounded(a);
    lemma_nearly_unit_is_bounded(b);
    lemma_exact_dot_bound(a, b);
    lemma_cauchy_schwarz(a, b);
    lemma_product_bound(a.exact_dot(a), b.exact_dot(b), bound, bound);
    assert(bound >= 0) by (nonlinear_arith)
        requires
            bound == s * s + 16 * s,
            s > 0,
    ;
    lemma_square_bound(a.exact_dot(b), bound);
    assert(bound == (s + 16) * s) by (nonlinear_arith)
        requires
            bound == s * s + 16 * s,
    ;
    vstd::arithmetic::div_mod::lemma_div_multiples_vanish(s + 16, s);
    vstd::arithmetic::div_mod::lemma_div_is_ordered(a.exact_dot(b), bound, s);
    assert(-bound == (-(s + 16)) * s) by (nonlinear_arith)
        requires
            bound == (s + 16) * s,
    ;
    vstd::arithmetic::div_mod::lemma_div_multiples_vanish(-(s + 16), s);
    vstd::arithmetic::div_mod::lemma_div_is_ordered(-bound, a.exact_dot(b), s);
}

/// The parts of the reflection of a nearly unit direction at a nearly
/// unit normal, none of them clamped: with `m` the rounded `D . N`, every
/// component of the reflected direction is that of `D` less `2 * n * m`,
/// rounded down.
pub proof fn lemma_reflect_parts(direction: Vec3, normal: Vec3)
    requires
        direction.nearly_unit(),
        normal.nearly_unit(),
    ensures
        ({
            let m = direction.dot(normal).raw;
            let r = reflect_spec(direction, normal);
            &&& m == direction.exact_dot(normal) / ONE_RAW as int
            &&& -2 * ONE_RAW <= m <= 2 * ONE_RAW
            &&& r.x.raw == direction.x.raw - (2 * (normal.x.raw * m)) / ONE_RAW as int
            &&& r.y.raw == direction.y.raw - (2 * (normal.y.raw * m)) / ONE_RAW as int
            &&& r.z.raw == direction.z.raw - (2 * (normal.z.raw * m)) / ONE_RAW as int
            &&& -10 * ONE_RAW <= r.x.raw <= 10 * ONE_RAW
            &&& -10 * ONE_RAW <= r.y.raw <= 10 * ONE_RAW
            &&& -10 * ONE_RAW <= r.z.raw <= 10 * ONE_RAW
        }),
{
    let one = ONE_RAW as int;
    lemma_nearly_unit_is_bounded(direction);
    lemma_nearly_unit_is_bounded(normal);
    lemma_dot_of_nearly_unit(direction, normal);
    let m = direction.dot(normal).raw as int;
    let two = Fixed::whole(2);
    assert(two.raw == 2 * one);
    lemma_whole_product(normal.x.raw as int, 2);
    lemma_whole_product(normal.y.raw as int, 2);
    lemma_whole_product(normal.z.raw as int, 2);
    let doubled = normal.scaled(two);
    assert(doubled.x.raw == 2 * normal.x.raw);
    assert(doubled.y.raw == 2 * normal.y.raw);
    assert(doubled.z.raw == 2 * normal.z.raw);
    lemma_product_bound(normal.x.raw as int, m, 2 * one, 2 * one);
    lemma_product_bound(normal.y.raw as int, m, 2 * one, 2 * one);
    lemma_product_bound(normal.z.raw as int, m, 2 * one, 2 * one);
    assert((2 * one) * (2 * one) == 4 * (one * one)) by (nonlinear_arith);
    assert((2 * normal.x.raw) * m == 2 * (normal.x.raw * m)) by (nonlinear_arith);
    assert((2 * normal.y.raw) * m == 2 * (normal.y.raw * m)) by (nonlinear_arith);
    assert((2 * normal.z.raw) * m == 2 * (normal.z.raw * m)) by (nonlinear_arith);
}

/// One component of the reflected direction times the normal, before
/// rounding: `s * n * t == 2 * m * n^2 - n * r` where `2 * n * m == t * s + r`.
proof fn lemma_reflect_term(n: int, m: int, t: int, r: int, s: int)
    requires
        2 * (n * m) == t * s + r,
    ensures
        s * (n * t) == 2 * (m * (n * n)) - n * r,
{
    assert(s * (n * t) == n * (t * s)) by (nonlinear_arith);
    assert(n * (t * s) == n * (2 * (n * m) - r));
    assert(n * (2 * (n * m) - r) == 2 * (m * (n * n)) - n * r) by (nonlinear_arith);
}

/// The part of the reflected direction along the normal is the negative
/// of that of the incident direction, up to rounding: for a nearly unit
/// direction and a nearly unit normal, `reflect(D, N) . N` and `-(D . N)`
/// differ by at most 128 units of the last place.
pub proof fn lemma_reflect_turns_normal_part(direction: Vec3, normal: Vec3)
    requires
        direction.nearly_unit(),
        normal.nearly_unit(),
    ensures
        -128 <= reflect_spec(direction, normal).dot(normal).raw + direction.dot(normal).raw <= 128,
{
    let s = ONE_RAW as int;
    let r = reflect_spec(direction, normal);
    lemma_reflect_parts(direction, normal);
    lemma_nearly_unit_is_bounded(normal);
    let e = direction.exact_dot(normal);
    let g = normal.exact_dot(normal);
    let m = e / s;
    let rho = e % s;
    let (d1, d2, d3) = (direction.x.raw as int, direction.y.raw as int, direction.z.raw as int);
    let (n1, n2, n3) = (normal.x.raw as int, normal.y.raw as int, normal.z.raw as int);
    let (t1, t2, t3) = ((2 * (n1 * m)) / s, (2 * (n2 * m)) / s, (2 * (n3 * m)) / s);
    let (r1, r2, r3) = ((2 * (n1 * m)) % s, (2 * (n2 * m)) % s, (2 * (n3 * m)) % s);
    assert(r.x.raw == d1 - t1 && r.y.raw == d2 - t2 && r.z.raw == d3 - t3);
    lemma_reflect_term(n1, m, t1, r1, s);
    lemma_reflect_term(n2, m, t2, r2, s);
    lemma_reflect_term(n3, m, t3, r3, s);
    let x = r.exact_dot(normal);
    assert(x == e - (n1 * t1 + n2 * t2 + n3 * t3)) by (nonlinear_arith)
        requires
            x == (d1 - t1) * n1 + (d2 - t2) * n2 + (d3 - t3) * n3,
            e == d1 * n1 + d2 * n2 + d3 * n3,
    ;
    let carried = n1 * r1 + n2 * r2 + n3 * r3;
    lemma_distribute(s, n1 * t1, n2 * t2, n3 * t3);
    lemma_distribute(m, n1 * n1, n2 * n2, n3 * n3);
    assert(s * (n1 * t1 + n2 * t2 + n3 * t3) == 2 * (m * g) - carried);
    assert(s * (x + e) == 2 * (m * (s * s - g)) + 2 * (rho * s) + carried) by (nonlinear_arith)
        requires
            x == e - (n1 * t1 + n2 * t2 + n3 * t3),
            s * (n1 * t1 + n2 * t2 + n3 * t3) == 2 * (m * g) - carried,
            e == m * s + rho,
    ;
    lemma_product_bound(m, s * s - g, 2 * s, 16 * s);
    lemma_product_bound(n1, r1, 2 * s, s);
    lemma_product_bound(n2, r2, 2 * s, s);
    lemma_product_bound(n3, r3, 2 * s, s);
    assert((2 * s) * (16 * s) == 32 * (s * s)) by (nonlinear_arith);
    assert((2 * s) * s == 2 * (s * s)) by (nonlinear_arith);
    assert(0 <= rho * s <= s * s) by (nonlinear_arith)
        requires
            0 <= rho <= s,
            s > 0,
    ;
    assert(-72 * (s * s) <= s * (x + e) <= 72 * (s * s));
    assert(-72 * s <= x + e <= 72 * s) by (nonlinear_arith)
        requires
            -72 * (s * s) <= s * (x + e) <= 72 * (s * s),
            s > 0,
    ;
    // `r` has no component above ten, so its inner product is not clamped.
    lemma_product_bound(r.x.raw as int, n1, 10 * s, 2 * s);
    lemma_product_bound(r.y.raw as int, n2, 10 * s, 2 * s);
    lemma_product_bound(r.z.raw as int, n3, 10 * s, 2 * s);
    assert((10 * s) * (2 * s) == 20 * (s * s)) by (nonlinear_arith);
    assert(r.dot(normal).raw == x / s);
}

/// The square of one component of the reflected direction, before
/// rounding, where `2 * (n * m) == t * s + r`.
proof fn lemma_reflect_square(d: int, n: int, m: int, t: int, r: int, s: int)
    requires
        2 * (n * m) == t * s + r,
    ensures
        (s * s) * ((d - t) * (d - t)) == (s * s) * (d * d) - 4 * ((s * m) * (d * n)) + 4 * ((m * m)
            * (n * n)) + 2 * ((s * d - 2 * (n * m)) * r) + r * r,
{
    let p = s * d;
    let q = n * m;
    let a = p - 2 * q;
    assert(s * (d - t) == a + r) by (nonlinear_arith)
        requires
            2 * q == t * s + r,
            a == s * d - 2 * q,
    ;
    lemma_regroup(s, d - t, s, d - t);
    assert((s * s) * ((d - t) * (d - t)) == (a + r) * (a + r)) by {
        lemma_regroup(s, s, d - t, d - t);
    }
    lemma_square_of_difference(a, -r);
    assert(a * (-r) == -(a * r)) by (nonlinear_arith);
    assert((-r) * (-r) == r * r) by (nonlinear_arith);
    assert((a + r) * (a + r) == a * a + 2 * (a * r) + r * r);
    lemma_square_of_difference(p, 2 * q);
    assert(p * (2 * q) == 2 * (p * q)) by (nonlinear_arith);
    assert((2 * q) * (2 * q) == 4 * (q * q)) by (nonlinear_arith);
    assert(a * a == p * p - 4 * (p * q) + 4 * (q * q));
    lemma_regroup(s, d, s, d);
    assert(p * p == (s * s) * (d * d));
    lemma_regroup(s, d, m, n);
    assert(n * m == m * n) by (nonlinear_arith);
    assert(p * q == (s * m) * (d * n));
    lemma_regroup(n, m, n, m);
    assert((n * n) * (m * m) == (m * m) * (n * n)) by (nonlinear_arith);
    assert(q * q == (m * m) * (n * n));
}

/// Reflection keeps the length, up to rounding: for a nearly unit
/// direction and a nearly unit normal, the squared lengths of
/// `reflect(D, N)` and of `D` differ by at most 512 units of the last
/// place.
pub proof fn lemma_reflect_keeps_length(direction: Vec3, normal: Vec3)
    requires
        direction.nearly_unit(),
        normal.nearly_unit(),
    ensures
        -512 <= reflect_spec(direction, normal).squared().raw - direction.squared().raw <= 512,
{
    let s = ONE_RAW as int;
    let refl = reflect_spec(direction, normal);
    lemma_reflect_parts(direction, normal);
    lemma_nearly_unit_is_bounded(direction);
    lemma_nearly_unit_is_bounded(normal);
    lemma_exact_dot_bound(direction, direction);
    let e = direction.exact_dot(normal);
    let f = direction.exact_dot(direction);
    let g = normal.exact_dot(normal);
    let h = refl.exact_dot(refl);
    let m = e / s;
    let rho = e % s;
    let (d1, d2, d3) = (direction.x.raw as int, direction.y.raw as int, direction.z.raw as int);
    let (n1, n2, n3) = (normal.x.raw as int, normal.y.raw as int, normal.z.raw as int);
    let (t1, t2, t3) = ((2 * (n1 * m)) / s, (2 * (n2 * m)) / s, (2 * (n3 * m)) / s);
    let (r1, r2, r3) = ((2 * (n1 * m)) % s, (2 * (n2 * m)) % s, (2 * (n3 * m)) % s);
    let (a1, a2, a3) = (
        s * d1 - 2 * (n1 * m),
        s * d2 - 2 * (n2 * m),
        s * d3 - 2 * (n3 * m),
    );
    assert(refl.x.raw == d1 - t1 && refl.y.raw == d2 - t2 && refl.z.raw == d3 - t3);
    lemma_reflect_square(d1, n1, m, t1, r1, s);
    lemma_reflect_square(d2, n2, m, t2, r2, s);
    lemma_reflect_square(d3, n3, m, t3, r3, s);
    let mixed = a1 * r1 + a2 * r2 + a3 * r3;
    let squares = r1 * r1 + r2 * r2 + r3 * r3;
    lemma_distribute(s * s, (d1 - t1) * (d1 - t1), (d2 - t2) * (d2 - t2), (d3 - t3) * (d3 - t3));
    lemma_distribute(s * s, d1 * d1, d2 * d2, d3 * d3);
    lemma_distribute(s * m, d1 * n1, d2 * n2, d3 * n3);
    lemma_distribute(m * m, n1 * n1, n2 * n2, n3 * n3);
    assert((s * s) * h == (s * s) * f - 4 * ((s * m) * e) + 4 * ((m * m) * g) + 2 * mixed
        + squares);
    assert((s * m) * e == (m * m) * (s * s) + (s * m) * rho) by {
        assert(e == m * s + rho);
        assert((s * m) * (m * s + rho) == (s * m) * (m * s) + (s * m) * rho) by (nonlinear_arith);
        assert((s * m) * (m * s) == (m * m) * (s * s)) by (nonlinear_arith);
    }
    assert((m * m) * (g - s * s) == (m * m) * g - (m * m) * (s * s)) by (nonlinear_arith);
    assert((s * s) * (h - f) == (s * s) * h - (s * s) * f) by (nonlinear_arith);
    assert((s * s) * (h - f) == 4 * ((m * m) * (g - s * s)) - 4 * ((s * m) * rho) + 2 * mixed
        + squares);
    let cube = s * s * s;
    // 4 m^2 (g - s^2): at most 4 * 64 cubes
    lemma_product_bound(m, m, 2 * s, 2 * s);
    assert((2 * s) * (2 * s) == 4 * (s * s)) by (nonlinear_arith);
    lemma_product_bound(m * m, g - s * s, 4 * (s * s), 16 * s);
    assert((4 * (s * s)) * (16 * s) == 64 * cube) by (nonlinear_arith)
        requires
            cube == s * s * s,
    ;
    // 4 s m rho: at most 4 * 2 cubes
    lemma_product_bound(s, m, s, 2 * s);
    assert(s * (2 * s) == 2 * (s * s)) by (nonlinear_arith);
    lemma_product_bound(s * m, rho, 2 * (s * s), s);
    assert((2 * (s * s)) * s == 2 * cube) by (nonlinear_arith)
        requires
            cube == s * s * s,
    ;
    // 2 a r: each a is at most 10 squares, each r less than s
    lemma_product_bound(n1, m, 2 * s, 2 * s);
    lemma_product_bound(n2, m, 2 * s, 2 * s);
    lemma_product_bound(n3, m, 2 * s, 2 * s);
    lemma_product_bound(s, d1, s, 2 * s);
    lemma_product_bound(s, d2, s, 2 * s);
    lemma_product_bound(s, d3, s, 2 * s);
    lemma_product_bound(a1, r1, 10 * (s * s), s);
    lemma_product_bound(a2, r2, 10 * (s * s), s);
    lemma_product_bound(a3, r3, 10 * (s * s), s);
    assert((10 * (s * s)) * s == 10 * cube) by (nonlinear_arith)
        requires
            cube == s * s * s,
    ;
    // r^2: less than a square each
    lemma_product_bound(r1, r1, s, s);
    lemma_product_bound(r2, r2, s, s);
    lemma_product_bound(r3, r3, s, s);
    assert(3 * (s * s) <= cube) by (nonlinear_arith)
        requires
            s >= 3,
            cube == s * s * s,
    ;
    assert(-325 * cube <= (s * s) * (h - f) <= 325 * cube);
    assert(-325 * s <= h - f <= 325 * s) by (nonlinear_arith)
        requires
            -325 * cube <= (s * s) * (h - f) <= 325 * cube,
            cube == s * s * s,
            s > 0,
    ;
    // neither squared length is clamped
    lemma_product_bound(refl.x.raw as int, refl.x.raw as int, 10 * s, 10 * s);
    lemma_product_bound(refl.y.raw as int, refl.y.raw as int, 10 * s, 10 * s);
    lemma_product_bound(refl.z.raw as int, refl.z.raw as int, 10 * s, 10 * s);
    assert((10 * s) * (10 * s) == 100 * (s * s)) by (nonlinear_arith);
    assert(refl.squared().raw == h / s);
    assert(direction.squared().raw == f / s);
}

/// The direction of the reflected ray is nearly unit: the normalised
/// reflection of a nearly unit direction at a nearly unit normal.
pub proof fn lemma_reflected_direction_is_unit(direction: Vec3, normal: Vec3)
    requires
        direction.nearly_unit(),
        normal.nearly_unit(),
    ensures
        reflect_spec(direction, normal).unit().nearly_unit(),
{
    lemma_reflect_parts(direction, normal);
    lemma_reflect_keeps_length(direction, normal);
    lemma_nearly_unit_length(direction);
    let reflected = reflect_spec(direction, normal);
    lemma_long_enough(reflected);
    lemma_unit_is_nearly_unit(reflected);
}

/// One component of the refracted direction, squared and before
/// rounding: the component is `x + y` with `x` the rounded `d * eta` and
/// `y` the rounded `n * a`.
proof fn lemma_transmit_square(d: int, n: int, eta: int, a: int, x: int, y: int, q: int, s: int)
    requires
        s * (x + y) == d * eta + n * a - q,
    ensures
        (s * s) * ((x + y) * (x + y)) == (eta * eta) * (d * d) + 2 * ((eta * a) * (d * n)) + (a * a)
            * (n * n) - 2 * ((d * eta + n * a) * q) + q * q,
{
    let b = d * eta + n * a;
    lemma_regroup(s, x + y, s, x + y);
    assert((s * s) * ((x + y) * (x + y)) == (b - q) * (b - q)) by {
        lemma_regroup(s, s, x + y, x + y);
    }
    lemma_square_of_difference(b, q);
    lemma_square_of_difference(d * eta, -(n * a));
    assert((d * eta) * (-(n * a)) == -((d * eta) * (n * a))) by (nonlinear_arith);
    assert((-(n * a)) * (-(n * a)) == (n * a) * (n * a)) by (nonlinear_arith);
    lemma_regroup(d, eta, d, eta);
    assert((d * d) * (eta * eta) == (eta * eta) * (d * d)) by (nonlinear_arith);
    lemma_regroup(d, eta, n, a);
    assert((d * n) * (eta * a) == (eta * a) * (d * n)) by (nonlinear_arith);
    lemma_regroup(n, a, n, a);
    assert((n * n) * (a * a) == (a * a) * (n * n)) by (nonlinear_arith);
}

/// What the roundings of `eta^2`, `c^2` and `eta * c` leave between
/// `ee * cc` and `ec^2`: at most six units of the last place, for
/// `0 <= eta <= 2` and `0 <= c <= 1`.
proof fn lemma_rounded_squares(eta: int, c: int, ee: int, cc: int, ec: int, s: int)
    requires
        s >= 1,
        0 <= eta <= 2 * s,
        0 <= c <= s,
        0 <= eta * eta - s * ee < s,
        0 <= c * c - s * cc < s,
        0 <= eta * c - s * ec < s,
    ensures
        -6 * s <= ee * cc - ec * ec <= 6 * s,
{
    let r1 = eta * eta - s * ee;
    let r2 = c * c - s * cc;
    let r3 = eta * c - s * ec;
    let delta = ee * cc - ec * ec;
    lemma_regroup(s, ee, s, cc);
    lemma_regroup(s, ec, s, ec);
    assert((s * ee) * (s * cc) == (eta * eta) * (c * c) - (eta * eta) * r2 - r1 * (c * c) + r1 * r2)
        by (nonlinear_arith)
        requires
            s * ee == eta * eta - r1,
            s * cc == c * c - r2,
    ;
    lemma_square_of_difference(eta * c, r3);
    lemma_regroup(eta, c, eta, c);
    assert((s * s) * delta == (s * s) * (ee * cc) - (s * s) * (ec * ec)) by (nonlinear_arith)
        requires
            delta == ee * cc - ec * ec,
    ;
    assert((s * s) * delta == -((eta * eta) * r2) - r1 * (c * c) + r1 * r2 + 2 * ((eta * c) * r3)
        - r3 * r3);
    lemma_product_bound(eta, eta, 2 * s, 2 * s);
    lemma_product_bound(c, c, s, s);
    lemma_product_bound(eta, c, 2 * s, s);
    assert((2 * s) * (2 * s) == 4 * (s * s) && (2 * s) * s == 2 * (s * s)) by (nonlinear_arith);
    lemma_product_bound(eta * eta, r2, 4 * (s * s), s);
    lemma_product_bound(r1, c * c, s, s * s);
    lemma_product_bound(r1, r2, s, s);
    lemma_product_bound(eta * c, r3, 2 * (s * s), s);
    lemma_product_bound(r3, r3, s, s);
    let cube = s * s * s;
    assert((4 * (s * s)) * s == 4 * cube && s * (s * s) == cube && (2 * (s * s)) * s == 2 * cube)
        by (nonlinear_arith)
        requires
            cube == s * s * s,
    ;
    assert(s * s <= cube) by (nonlinear_arith)
        requires
            s >= 1,
            cube == s * s * s,
    ;
    assert(0 <= (eta * eta) * r2 && 0 <= r1 * (c * c) && 0 <= r1 * r2 && 0 <= (eta * c) * r3 && 0
        <= r3 * r3) by (nonlinear_arith)
        requires
            0 <= eta,
            0 <= c,
            0 <= r1,
            0 <= r2,
            0 <= r3,
    ;
    assert(-6 * cube <= (s * s) * delta <= 6 * cube);
    assert(-6 * s <= delta <= 6 * s) by (nonlinear_arith)
        requires
            -6 * cube <= (s * s) * delta <= 6 * cube,
            cube == s * s * s,
            s >= 1,
    ;
}

/// The scalar part of the squared length of the refracted direction:
/// with `m = -(c + delta)` the rounded `D . N`, `a = ec - sk`, and the
/// roundings of Snell's law as they are made,
/// `eta^2 * G_D + 2 * eta * a * E + a^2 * G_N` is the fourth power of the
/// scale up to what the roundings dropped.
proof fn lemma_snell(
    eta: int,
    c: int,
    delta: int,
    a: int,
    sk: int,
    parts: (int, int, int, int, int),
    dropped: (int, int, int, int, int, int),
    gammas: (int, int),
    s: int,
)
    requires
        ({
            let (ee, cc, ec, eu, k) = parts;
            let (r_ee, r_cc, r_ec, r_eu, r_sk, r_m) = dropped;
            &&& eta * eta == s * ee + r_ee
            &&& c * c == s * cc + r_cc
            &&& eta * c == s * ec + r_ec
            &&& ee * (s - cc) == s * eu + r_eu
            &&& k == s - eu
            &&& sk * sk == k * s - r_sk
            &&& a == ec - sk
        }),
    ensures
        ({
            let (ee, cc, ec, eu, k) = parts;
            let (r_ee, r_cc, r_ec, r_eu, r_sk, r_m) = dropped;
            let e = s * (-(c + delta)) + r_m;
            (eta * eta) * (s * s + gammas.0) + 2 * ((eta * a) * e) + (a * a) * (s * s + gammas.1)
                == (s * s) * (s * s) + (s * s) * (r_ee + r_eu - r_sk + (ee * cc - ec * ec)) - 2 * ((
            a * s) * r_ec) - 2 * (((eta * a) * delta) * s) + (eta * eta) * gammas.0 + 2 * ((eta
                * a) * r_m) + (a * a) * gammas.1
        }),
{
    let (ee, cc, ec, eu, k) = parts;
    let (r_ee, r_cc, r_ec, r_eu, r_sk, r_m) = dropped;
    let e = s * (-(c + delta)) + r_m;
    let sq = s * s;
    assert((eta * eta) * (sq + gammas.0) == (eta * eta) * sq + (eta * eta) * gammas.0)
        by (nonlinear_arith);
    assert((a * a) * (sq + gammas.1) == (a * a) * sq + (a * a) * gammas.1) by (nonlinear_arith);
    // 2 eta a e
    assert(s * (-(c + delta)) == -(s * c) + -(s * delta)) by (nonlinear_arith);
    lemma_distribute(eta * a, -(s * c), -(s * delta), r_m);
    assert((eta * a) * (-(s * c)) == -(s * (a * (eta * c)))) by (nonlinear_arith);
    let ea = eta * a;
    assert(ea * (-(s * delta)) == -((ea * delta) * s)) by (nonlinear_arith);
    assert((eta * a) * e == -(s * (a * (eta * c))) - ((eta * a) * delta) * s + (eta * a) * r_m);
    assert(s * (a * (eta * c)) == sq * (a * ec) + (a * s) * r_ec) by (nonlinear_arith)
        requires
            eta * c == s * ec + r_ec,
            sq == s * s,
    ;
    // a^2 - 2 a ec == sk^2 - ec^2
    assert(a * a - 2 * (a * ec) == sk * sk - ec * ec) by (nonlinear_arith)
        requires
            a == ec - sk,
    ;
    // eta^2 + sk^2 - ec^2 == s^2 + r_ee + r_eu - r_sk + ee cc - ec^2
    assert(ee * (s - cc) == ee * s - ee * cc) by (nonlinear_arith);
    assert(k * s == sq - eu * s) by (nonlinear_arith)
        requires
            k == s - eu,
            sq == s * s,
    ;
    assert(eu * s == s * eu && ee * s == s * ee) by (nonlinear_arith);
    let inner = eta * eta + (a * a - 2 * (a * ec));
    assert(inner == sq + r_ee + r_eu - r_sk + (ee * cc - ec * ec));
    lemma_distribute(sq, eta * eta, a * a, -2 * (a * ec));
    assert(sq * (-2 * (a * ec)) == -2 * (sq * (a * ec))) by (nonlinear_arith);
    assert((eta * eta) * sq == sq * (eta * eta) && (a * a) * sq == sq * (a * a))
        by (nonlinear_arith);
    lemma_distribute(sq, sq, r_ee + r_eu - r_sk + (ee * cc - ec * ec), 0);
    assert(sq * 0 == 0);
}

/// Snell's law keeps the length, up to rounding: for a nearly unit
/// direction that enters against a nearly unit normal, and a ratio of
/// indices of at most two, the squared length of the refracted direction
/// is within 512 units of the last place of one, and none of its
/// components exceeds eight in size.  The same holds of the sentinel of
/// total internal reflection.
pub proof fn lemma_transmit_keeps_length(direction: Vec3, normal: Vec3, eta: Fixed)
    requires
        direction.nearly_unit(),
        normal.nearly_unit(),
        0 <= eta.raw <= 2 * ONE_RAW,
        cos_incidence(direction, normal).raw >= 0,
    ensures
        ({
            let r = transmit_spec(direction, normal, eta, cos_incidence(direction, normal));
            &&& ONE_RAW - 512 <= r.squared().raw <= ONE_RAW + 512
            &&& r.squares_fit()
        }),
{
    let s = ONE_RAW as int;
    let sq = s * s;
    let cube = s * s * s;
    let one = Fixed::whole(1);
    assert(one.raw == s && Fixed::whole(-1).raw == -s && Fixed::whole(0).raw == 0);
    let cos = cos_incidence(direction, normal);
    let r = transmit_spec(direction, normal, eta, cos);
    lemma_nearly_unit_is_bounded(direction);
    lemma_nearly_unit_is_bounded(normal);
    lemma_dot_of_nearly_unit(direction, normal);
    let e = direction.exact_dot(normal);
    let m = direction.dot(normal).raw as int;
    let c = cos.raw as int;
    let delta = -m - c;
    assert(0 <= delta <= 16);
    assert(0 <= c <= s);
    let h = eta.raw as int;
    // the discriminant
    lemma_product_bound(c, c, s, s);
    assert(0 <= c * c) by (nonlinear_arith);
    let cc = (c * c) / s;
    vstd::arithmetic::div_mod::lemma_div_multiples_vanish(s, s);
    vstd::arithmetic::div_mod::lemma_div_is_ordered(c * c, s * s, s);
    assert(0 <= cc <= s);
    assert(cos.product(cos).raw == cc);
    lemma_product_bound(h, h, 2 * s, 2 * s);
    assert(0 <= h * h) by (nonlinear_arith);
    assert((2 * s) * (2 * s) == (4 * s) * s) by (nonlinear_arith);
    let ee = (h * h) / s;
    vstd::arithmetic::div_mod::lemma_div_multiples_vanish(4 * s, s);
    vstd::arithmetic::div_mod::lemma_div_is_ordered(h * h, (4 * s) * s, s);
    assert(0 <= ee <= 4 * s);
    assert(eta.product(eta).raw == ee);
    let u = s - cc;
    lemma_product_bound(ee, u, 4 * s, s);
    assert(0 <= ee * u) by (nonlinear_arith)
        requires
            0 <= ee,
            0 <= u,
    ;
    let eu = (ee * u) / s;
    vstd::arithmetic::div_mod::lemma_div_is_ordered(ee * u, (4 * s) * s, s);
    assert(0 <= eu <= 4 * s);
    let k = s - eu;
    assert(refract_discriminant(eta, cos).raw == k);
    if k < 0 {
        assert(r == total_reflection_spec());
        assert(r.exact_dot(r) == s * s) by (nonlinear_arith)
            requires
                r.x.raw == s,
                r.y.raw == 0,
                r.z.raw == 0,
        ;
    } else {
        lemma_int_sqrt_exists(k * s);
        let sk = int_sqrt(k * s);
        assert(sk <= s) by (nonlinear_arith)
            requires
                sk >= 0,
                sk * sk <= k * s,
                0 <= k <= s,
        ;
        assert(refract_discriminant(eta, cos).root().raw == sk);
        assert((sk + 1) * (sk + 1) == sk * sk + 2 * sk + 1) by (nonlinear_arith);
        let r_sk = k * s - sk * sk;
        assert(0 <= r_sk <= 2 * sk);
        lemma_product_bound(h, c, 2 * s, s);
        assert(0 <= h * c) by (nonlinear_arith)
            requires
                0 <= h,
                0 <= c,
        ;
        assert((2 * s) * s == (2 * s) * s);
        let ec = (h * c) / s;
        vstd::arithmetic::div_mod::lemma_div_multiples_vanish(2 * s, s);
        vstd::arithmetic::div_mod::lemma_div_is_ordered(h * c, (2 * s) * s, s);
        assert(0 <= ec <= 2 * s);
        assert(eta.product(cos).raw == ec);
        let a = ec - sk;
        let along = eta.product(cos).difference(refract_discriminant(eta, cos).root());
        assert(along.raw == a);
        // the components
        let d = (direction.x.raw as int, direction.y.raw as int, direction.z.raw as int);
        let n = (normal.x.raw as int, normal.y.raw as int, normal.z.raw as int);
        lemma_product_bound(d.0, h, 2 * s, 2 * s);
        lemma_product_bound(d.1, h, 2 * s, 2 * s);
        lemma_product_bound(d.2, h, 2 * s, 2 * s);
        lemma_product_bound(n.0, a, 2 * s, 2 * s);
        lemma_product_bound(n.1, a, 2 * s, 2 * s);
        lemma_product_bound(n.2, a, 2 * s, 2 * s);
        assert(-((2 * s) * (2 * s)) == (-4 * s) * s) by (nonlinear_arith);
        vstd::arithmetic::div_mod::lemma_div_multiples_vanish(-4 * s, s);
        vstd::arithmetic::div_mod::lemma_div_is_ordered(d.0 * h, (4 * s) * s, s);
        vstd::arithmetic::div_mod::lemma_div_is_ordered(d.1 * h, (4 * s) * s, s);
        vstd::arithmetic::div_mod::lemma_div_is_ordered(d.2 * h, (4 * s) * s, s);
        vstd::arithmetic::div_mod::lemma_div_is_ordered((-4 * s) * s, d.0 * h, s);
        vstd::arithmetic::div_mod::lemma_div_is_ordered((-4 * s) * s, d.1 * h, s);
        vstd::arithmetic::div_mod::lemma_div_is_ordered((-4 * s) * s, d.2 * h, s);
        vstd::arithmetic::div_mod::lemma_div_is_ordered(n.0 * a, (4 * s) * s, s);
        vstd::arithmetic::div_mod::lemma_div_is_ordered(n.1 * a, (4 * s) * s, s);
        vstd::arithmetic::div_mod::lemma_div_is_ordered(n.2 * a, (4 * s) * s, s);
        vstd::arithmetic::div_mod::lemma_div_is_ordered((-4 * s) * s, n.0 * a, s);
        vstd::arithmetic::div_mod::lemma_div_is_ordered((-4 * s) * s, n.1 * a, s);
        vstd::arithmetic::div_mod::lemma_div_is_ordered((-4 * s) * s, n.2 * a, s);
        let x = ((d.0 * h) / s, (d.1 * h) / s, (d.2 * h) / s);
        let y = ((n.0 * a) / s, (n.1 * a) / s, (n.2 * a) / s);
        let q = (
            (d.0 * h) % s + (n.0 * a) % s,
            (d.1 * h) % s + (n.1 * a) % s,
            (d.2 * h) % s + (n.2 * a) % s,
        );
        assert(r.x.raw == x.0 + y.0 && r.y.raw == x.1 + y.1 && r.z.raw == x.2 + y.2);
        assert(s * (x.0 + y.0) == d.0 * h + n.0 * a - q.0) by (nonlinear_arith)
            requires
                d.0 * h == s * x.0 + (d.0 * h) % s,
                n.0 * a == s * y.0 + (n.0 * a) % s,
                q.0 == (d.0 * h) % s + (n.0 * a) % s,
        ;
        assert(s * (x.1 + y.1) == d.1 * h + n.1 * a - q.1) by (nonlinear_arith)
            requires
                d.1 * h == s * x.1 + (d.1 * h) % s,
                n.1 * a == s * y.1 + (n.1 * a) % s,
                q.1 == (d.1 * h) % s + (n.1 * a) % s,
        ;
        assert(s * (x.2 + y.2) == d.2 * h + n.2 * a - q.2) by (nonlinear_arith)
            requires
                d.2 * h == s * x.2 + (d.2 * h) % s,
                n.2 * a == s * y.2 + (n.2 * a) % s,
                q.2 == (d.2 * h) % s + (n.2 * a) % s,
        ;
        lemma_transmit_square(d.0, n.0, h, a, x.0, y.0, q.0, s);
        lemma_transmit_square(d.1, n.1, h, a, x.1, y.1, q.1, s);
        lemma_transmit_square(d.2, n.2, h, a, x.2, y.2, q.2, s);
        let g_d = direction.exact_dot(direction);
        let g_n = normal.exact_dot(normal);
        let total = r.exact_dot(r);
        let mixed = (d.0 * h + n.0 * a) * q.0 + (d.1 * h + n.1 * a) * q.1 + (d.2 * h + n.2 * a)
            * q.2;
        let squares = q.0 * q.0 + q.1 * q.1 + q.2 * q.2;
        lemma_distribute(
            sq,
            (x.0 + y.0) * (x.0 + y.0),
            (x.1 + y.1) * (x.1 + y.1),
            (x.2 + y.2) * (x.2 + y.2),
        );
        lemma_distribute(h * h, d.0 * d.0, d.1 * d.1, d.2 * d.2);
        lemma_distribute(h * a, d.0 * n.0, d.1 * n.1, d.2 * n.2);
        lemma_distribute(a * a, n.0 * n.0, n.1 * n.1, n.2 * n.2);
        assert(sq * total == (h * h) * g_d + 2 * ((h * a) * e) + (a * a) * g_n - 2 * mixed
            + squares);
        let r_m = e % s;
        let dropped = ((h * h) % s, (c * c) % s, (h * c) % s, (ee * u) % s, r_sk, r_m);
        assert(e == s * (-(c + delta)) + r_m);
        lemma_snell(h, c, delta, a, sk, (ee, cc, ec, eu, k), dropped, (g_d - sq, g_n - sq), s);
        lemma_rounded_squares(h, c, ee, cc, ec, s);
        let rest = dropped.0 + dropped.3 - r_sk + (ee * cc - ec * ec);
        assert(sq * total == sq * sq + sq * rest - 2 * ((a * s) * dropped.2) - 2 * (((h * a)
            * delta) * s) + (h * h) * (g_d - sq) + 2 * ((h * a) * r_m) + (a * a) * (g_n - sq) - 2
            * mixed + squares);
        // every term in cubes of the scale
        assert(-8 * s <= rest <= 8 * s);
        lemma_product_bound(sq, rest, sq, 8 * s);
        assert(sq * (8 * s) == 8 * cube) by (nonlinear_arith)
            requires
                sq == s * s,
                cube == s * s * s,
        ;
        lemma_product_bound(a, s, 2 * s, s);
        assert((2 * s) * s == 2 * sq) by (nonlinear_arith)
            requires
                sq == s * s,
        ;
        lemma_product_bound(a * s, dropped.2, 2 * sq, s);
        assert((2 * sq) * s == 2 * cube) by (nonlinear_arith)
            requires
                sq == s * s,
                cube == s * s * s,
        ;
        lemma_product_bound(h, a, 2 * s, 2 * s);
        assert((2 * s) * (2 * s) == 4 * sq) by (nonlinear_arith)
            requires
                sq == s * s,
        ;
        lemma_product_bound(h * a, delta, 4 * sq, 16);
        lemma_product_bound((h * a) * delta, s, (4 * sq) * 16, s);
        assert(((4 * sq) * 16) * s == 64 * cube) by (nonlinear_arith)
            requires
                sq == s * s,
                cube == s * s * s,
        ;
        lemma_product_bound(h * h, g_d - sq, 4 * sq, 16 * s);
        lemma_product_bound(a, a, 2 * s, 2 * s);
        lemma_product_bound(a * a, g_n - sq, 4 * sq, 16 * s);
        assert((4 * sq) * (16 * s) == 64 * cube) by (nonlinear_arith)
            requires
                sq == s * s,
                cube == s * s * s,
        ;
        lemma_product_bound(h * a, r_m, 4 * sq, s);
        assert((4 * sq) * s == 4 * cube) by (nonlinear_arith)
            requires
                sq == s * s,
                cube == s * s * s,
        ;
        lemma_product_bound(d.0 * h + n.0 * a, q.0, 8 * sq, 2 * s);
        lemma_product_bound(d.1 * h + n.1 * a, q.1, 8 * sq, 2 * s);
        lemma_product_bound(d.2 * h + n.2 * a, q.2, 8 * sq, 2 * s);
        assert((8 * sq) * (2 * s) == 16 * cube) by (nonlinear_arith)
            requires
                sq == s * s,
                cube == s * s * s,
        ;
        lemma_product_bound(q.0, q.0, 2 * s, 2 * s);
        lemma_product_bound(q.1, q.1, 2 * s, 2 * s);
        lemma_product_bound(q.2, q.2, 2 * s, 2 * s);
        assert(12 * sq <= cube) by (nonlinear_arith)
            requires
                s >= 12,
                sq == s * s,
                cube == s * s * s,
        ;
        assert(-400 * cube <= sq * total - sq * sq <= 400 * cube);
        assert(sq * (total - sq) == sq * total - sq * sq) by (nonlinear_arith);
        assert(-400 * s <= total - sq <= 400 * s) by (nonlinear_arith)
            requires
                -400 * cube <= sq * (total - sq) <= 400 * cube,
                sq == s * s,
                cube == s * s * s,
                s > 0,
        ;
        assert(sq == 0x1_0000_0000_0000_0000);
        assert(r.squared().raw == total / s);
    }
}

/// The ratio of two indices of refraction between one and two is at most
/// two.
pub proof fn lemma_ratio_of_indices(a: Fixed, b: Fixed)
    requires
        ONE_RAW <= a.raw <= 2 * ONE_RAW,
        ONE_RAW <= b.raw <= 2 * ONE_RAW,
    ensures
        0 <= a.quotient(b).raw <= 2 * ONE_RAW,
{
    let s = ONE_RAW as int;
    assert(0 <= a.raw * s <= (2 * s) * b.raw) by (nonlinear_arith)
        requires
            s <= a.raw <= 2 * s,
            s <= b.raw,
    ;
    assert((2 * s) * b.raw == b.raw * (2 * s)) by (nonlinear_arith);
    assert(b.raw * 0 == 0);
    vstd::arithmetic::div_mod::lemma_div_multiples_vanish(2 * s, b.raw as int);
    vstd::arithmetic::div_mod::lemma_div_is_ordered(a.raw * s, (2 * s) * b.raw, b.raw as int);
    vstd::arithmetic::div_mod::lemma_div_is_ordered(0, a.raw * s, b.raw as int);
    vstd::arithmetic::div_mod::lemma_div_multiples_vanish(0, b.raw as int);
    assert(0 * b.raw == 0);
    let q = (a.raw * s) / (b.raw as int);
    assert(0 <= q <= 2 * s);
    assert(a.quotient(b).raw == q);
}

/// A nearly unit vector turned round is nearly unit.
pub proof fn lemma_turned_is_nearly_unit(v: Vec3)
    requires
        v.nearly_unit(),
    ensures
        v.negation().nearly_unit(),
        !v.has_lower_bound(),
{
    lemma_nearly_unit_is_bounded(v);
    let t = v.negation();
    assert(t.exact_dot(t) == v.exact_dot(v)) by (nonlinear_arith)
        requires
            t.x.raw == -v.x.raw,
            t.y.raw == -v.y.raw,
            t.z.raw == -v.z.raw,
            t.exact_dot(t) == t.x.raw * t.x.raw + t.y.raw * t.y.raw + t.z.raw * t.z.raw,
            v.exact_dot(v) == v.x.raw * v.x.raw + v.y.raw * v.y.raw + v.z.raw * v.z.raw,
    ;
}

/// The direction of the refracted ray is nearly unit: the normalised
/// refraction of a nearly unit direction at a nearly unit normal, between
/// media of indices between one and two, from whichever side the ray
/// comes and also where it is totally reflected.
pub proof fn lemma_refracted_direction_is_unit(
    direction: Vec3,
    normal: Vec3,
    eta_t: Fixed,
    eta_i: Fixed,
)
    requires
        direction.nearly_unit(),
        normal.nearly_unit(),
        ONE_RAW <= eta_t.raw <= 2 * ONE_RAW,
        ONE_RAW <= eta_i.raw <= 2 * ONE_RAW,
    ensures
        refract_spec(direction, normal, eta_t, eta_i).unit().nearly_unit(),
{
    let cos = cos_incidence(direction, normal);
    let refracted = refract_spec(direction, normal, eta_t, eta_i);
    if cos.raw < 0 {
        lemma_turned_is_nearly_unit(normal);
        lemma_turned_normal(direction, normal);
        let turned = normal.negation();
        lemma_ratio_of_indices(eta_t, eta_i);
        lemma_transmit_keeps_length(direction, turned, eta_t.quotient(eta_i));
        assert(cos_incidence(direction, turned).raw > 0);
        assert(refracted == refract_spec(direction, turned, eta_i, eta_t));
        assert(refracted == transmit_spec(
            direction,
            turned,
            eta_t.quotient(eta_i),
            cos_incidence(direction, turned),
        ));
    } else {
        lemma_ratio_of_indices(eta_i, eta_t);
        lemma_transmit_keeps_length(direction, normal, eta_i.quotient(eta_t));
    }
    lemma_long_enough(refracted);
    lemma_unit_is_nearly_unit(refracted);
}

} // verus!
