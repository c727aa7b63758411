//! Three-component vectors of fixed-point numbers.
use crate::util::algebra::{
    lemma_cancel, lemma_crossed, lemma_distribute, lemma_multiple_of_products,
    lemma_product_bound, lemma_product_of_sums, lemma_regroup, lemma_square_bound,
    lemma_square_of_difference, lemma_whole_product,
};
use crate::util::fixed::{
    clamp_wide, floor_div_wide, int_sqrt, lemma_int_sqrt_exists, saturate, Fixed, ONE_RAW,
};
use core::ops::Neg;
use vstd::prelude::*;

verus! {

/// A point, direction or colour.
#[derive(Clone, Copy, Debug, PartialEq, Eq, Structural)]
pub struct Vec3 {
    pub x: Fixed,
    pub y: Fixed,
    pub z: Fixed,
}

/// Squared length, length and direction of a vector.
pub trait PixelOperations {
    /// The squared length `v . v`.
    fn square(&self) -> Fixed;

    /// The length `sqrt(v . v)`.
    fn norm(&self) -> Fixed;

    /// The vector divided by its length.
    fn normalized(&self) -> Vec3;
}

impl Vec3 {
    /// Some component is the lower bound of the range, the one number
    /// whose negation is not exact.
    pub open spec fn has_lower_bound(self) -> bool {
        self.x.raw == i64::MIN || self.y.raw == i64::MIN || self.z.raw == i64::MIN
    }

    /// Every component lies in [-2, 2].
    pub open spec fn bounded_by_two(self) -> bool {
        &&& -2 * ONE_RAW <= self.x.raw <= 2 * ONE_RAW
        &&& -2 * ONE_RAW <= self.y.raw <= 2 * ONE_RAW
        &&& -2 * ONE_RAW <= self.z.raw <= 2 * ONE_RAW
    }

    /// The exact squared length is within 16 units of the last place of
    /// one: a unit vector, as far as rounding lets there be one.
    pub open spec fn nearly_unit(self) -> bool {
        -16 * ONE_RAW <= self.exact_dot(self) - ONE_RAW * ONE_RAW <= 16 * ONE_RAW
    }

    /// No component exceeds `2^14` in size, so that the squared length is
    /// not clamped.
    pub open spec fn squares_fit(self) -> bool {
        &&& -0x4000_0000_0000 <= self.x.raw <= 0x4000_0000_0000
        &&& -0x4000_0000_0000 <= self.y.raw <= 0x4000_0000_0000
        &&& -0x4000_0000_0000 <= self.z.raw <= 0x4000_0000_0000
    }

    /// No component of `self + rhs` is clamped.
    pub open spec fn sum_is_exact(self, rhs: Vec3) -> bool {
        &&& i64::MIN <= self.x.raw + rhs.x.raw <= i64::MAX
        &&& i64::MIN <= self.y.raw + rhs.y.raw <= i64::MAX
        &&& i64::MIN <= self.z.raw + rhs.z.raw <= i64::MAX
    }

    /// No component of `self * n` is clamped, for a whole number `n`.
    pub open spec fn multiple_is_exact(self, n: int) -> bool {
        &&& i64::MIN <= n * ONE_RAW <= i64::MAX
        &&& i64::MIN <= self.x.raw * n <= i64::MAX
        &&& i64::MIN <= self.y.raw * n <= i64::MAX
        &&& i64::MIN <= self.z.raw * n <= i64::MAX
    }

    /// The rounded inner product of `self` and `rhs` is not clamped.
    pub open spec fn dot_in_range(self, rhs: Vec3) -> bool {
        i64::MIN <= self.exact_dot(rhs) / ONE_RAW as int <= i64::MAX
    }

    /// Component-wise sum, each component clamped.
    pub open spec fn sum(self, rhs: Vec3) -> Vec3 {
        Vec3 { x: self.x.sum(rhs.x), y: self.y.sum(rhs.y), z: self.z.sum(rhs.z) }
    }

    /// Component-wise difference, each component clamped.
    pub open spec fn difference(self, rhs: Vec3) -> Vec3 {
        Vec3 {
            x: self.x.difference(rhs.x),
            y: self.y.difference(rhs.y),
            z: self.z.difference(rhs.z),
        }
    }

    /// Component-wise negation, each component clamped.
    pub open spec fn negation(self) -> Vec3 {
        Vec3 { x: self.x.negation(), y: self.y.negation(), z: self.z.negation() }
    }

    /// Each component multiplied by `k`.
    pub open spec fn scaled(self, k: Fixed) -> Vec3 {
        Vec3 { x: self.x.product(k), y: self.y.product(k), z: self.z.product(k) }
    }

    /// The inner product of the raw components, without any rounding: the
    /// inner product of the two vectors in units of `2^-64`.
    pub open spec fn exact_dot(self, rhs: Vec3) -> int {
        self.x.raw * rhs.x.raw + self.y.raw * rhs.y.raw + self.z.raw * rhs.z.raw
    }

    /// The inner product, rounded down once and clamped.
    pub open spec fn dot(self, rhs: Vec3) -> Fixed {
        Fixed { raw: saturate(self.exact_dot(rhs) / ONE_RAW as int) }
    }

    /// The squared length `self . self`.
    pub open spec fn squared(self) -> Fixed {
        self.dot(self)
    }

    /// The length: the square root of the squared length.
    pub open spec fn length(self) -> Fixed {
        self.squared().root()
    }

    /// Each component divided by the length.
    pub open spec fn unit(self) -> Vec3 {
        Vec3 {
            x: self.x.quotient(self.length()),
            y: self.y.quotient(self.length()),
            z: self.z.quotient(self.length()),
        }
    }

    /// The vector with the given components.
    pub fn new(x: Fixed, y: Fixed, z: Fixed) -> (r: Vec3)
        ensures
            r == (Vec3 { x, y, z }),
    {
        Vec3 { x, y, z }
    }

    /// The vector with whole-number components.
    pub fn from_ints(x: i32, y: i32, z: i32) -> (r: Vec3)
        ensures
            r == (Vec3 {
                x: Fixed::whole(x as int),
                y: Fixed::whole(y as int),
                z: Fixed::whole(z as int),
            }),
    {
        Vec3 { x: Fixed::from_int(x), y: Fixed::from_int(y), z: Fixed::from_int(z) }
    }
}

/// One product of raw components, split into its floor quotient by `2^32`
/// and the remainder.
fn split_product(a: Fixed, b: Fixed) -> (r: (i128, i128))
    ensures
        r.0 == (a.raw * b.raw) / ONE_RAW as int,
        r.1 == (a.raw * b.raw) % ONE_RAW as int,
        -0x4000_0000_0000_0000_0000_0000 <= r.0 <= 0x4000_0000_0000_0000_0000_0000,
{
    let x: i128 = a.raw as i128;
    let y: i128 = b.raw as i128;
    assert(-0x4000_0000_0000_0000_0000_0000_0000_0000 <= x * y
        <= 0x4000_0000_0000_0000_0000_0000_0000_0000) by (nonlinear_arith)
        requires
            -0x8000_0000_0000_0000 <= x <= 0x8000_0000_0000_0000,
            -0x8000_0000_0000_0000 <= y <= 0x8000_0000_0000_0000,
    ;
    let p: i128 = x * y;
    let q: i128 = floor_div_wide(p, 0x1_0000_0000);
    (q, p - q * 0x1_0000_0000)
}

impl core::ops::Add for Vec3 {
    type Output = Vec3;

    /// `self + rhs`.
    fn add(self, rhs: Vec3) -> (r: Vec3)
        ensures
            r == self.sum(rhs),
    {
        Vec3 { x: self.x + rhs.x, y: self.y + rhs.y, z: self.z + rhs.z }
    }
}

impl vstd::std_specs::ops::AddSpecImpl for Vec3 {
    open spec fn obeys_add_spec() -> bool {
        true
    }

    open spec fn add_req(self, rhs: Vec3) -> bool {
        true
    }

    open spec fn add_spec(self, rhs: Vec3) -> Vec3 {
        self.sum(rhs)
    }
}

impl core::ops::Sub for Vec3 {
    type Output = Vec3;

    /// `self - rhs`.
    fn sub(self, rhs: Vec3) -> (r: Vec3)
        ensures
            r == self.difference(rhs),
    {
        Vec3 { x: self.x - rhs.x, y: self.y - rhs.y, z: self.z - rhs.z }
    }
}

impl vstd::std_specs::ops::SubSpecImpl for Vec3 {
    open spec fn obeys_sub_spec() -> bool {
        true
    }

    open spec fn sub_req(self, rhs: Vec3) -> bool {
        true
    }

    open spec fn sub_spec(self, rhs: Vec3) -> Vec3 {
        self.difference(rhs)
    }
}

impl core::ops::Neg for Vec3 {
    type Output = Vec3;

    /// `-self`.
    fn neg(self) -> (r: Vec3)
        ensures
            r == self.negation(),
    {
        Vec3 { x: self.x.neg(), y: self.y.neg(), z: self.z.neg() }
    }
}

impl vstd::std_specs::ops::NegSpecImpl for Vec3 {
    open spec fn obeys_neg_spec() -> bool {
        true
    }

    open spec fn neg_req(self) -> bool {
        true
    }

    open spec fn neg_spec(self) -> Vec3 {
        self.negation()
    }
}

impl core::ops::Mul<Vec3> for Vec3 {
    type Output = Fixed;

    /// The inner product `self . rhs`.
    fn mul(self, rhs: Vec3) -> (r: Fixed)
        ensures
            r == self.dot(rhs),
    {
        let (qx, rx) = split_product(self.x, rhs.x);
        let (qy, ry) = split_product(self.y, rhs.y);
        let (qz, rz) = split_product(self.z, rhs.z);
        let carry: i128 = (rx + ry + rz) / 0x1_0000_0000;
        Fixed { raw: clamp_wide(qx + qy + qz + carry) }
    }
}

impl vstd::std_specs::ops::MulSpecImpl<Vec3> for Vec3 {
    open spec fn obeys_mul_spec() -> bool {
        true
    }

    open spec fn mul_req(self, rhs: Vec3) -> bool {
        true
    }

    open spec fn mul_spec(self, rhs: Vec3) -> Fixed {
        self.dot(rhs)
    }
}

impl core::ops::Mul<Fixed> for Vec3 {
    type Output = Vec3;

    /// Every component multiplied by `k`.
    fn mul(self, k: Fixed) -> (r: Vec3)
        ensures
            r == self.scaled(k),
    {
        Vec3 { x: self.x * k, y: self.y * k, z: self.z * k }
    }
}

impl vstd::std_specs::ops::MulSpecImpl<Fixed> for Vec3 {
    open spec fn obeys_mul_spec() -> bool {
        true
    }

    open spec fn mul_req(self, k: Fixed) -> bool {
        true
    }

    open spec fn mul_spec(self, k: Fixed) -> Vec3 {
        self.scaled(k)
    }
}

impl PixelOperations for Vec3 {
    /// The squared length `v . v`, rounded down once.
    fn square(&self) -> (r: Fixed)
        ensures
            r == self.squared(),
    {
        *self * *self
    }

    /// The length: the square root of the squared length, rounded down.
    /// Its square is not above the squared length, and below it by no more
    /// than twice the length in units of the last place, and one.
    fn norm(&self) -> (r: Fixed)
        ensures
            r == self.length(),
            r.raw >= 0,
            r.product(r).raw <= self.squared().raw <= r.product(r).raw + 2 * r.raw / ONE_RAW as int
                + 1,
    {
        proof {
            lemma_length_squared(*self);
        }
        (*self * *self).sqrt()
    }

    /// Every component divided by the length.  Where the length is zero,
    /// a component other than zero becomes the bound of its sign.
    ///
    /// The result is nearly unit for every vector at least one half long
    /// whose components do not exceed `2^14` in size.
    fn normalized(&self) -> (r: Vec3)
        ensures
            r == self.unit(),
            self.squares_fit() && self.length().raw >= 0x8000_0000 ==> r.nearly_unit(),
    {
        proof {
            if self.squares_fit() && self.length().raw >= 0x8000_0000 {
                lemma_unit_is_nearly_unit(*self);
            }
        }
        let n = self.norm();
        Vec3 { x: self.x / n, y: self.y / n, z: self.z / n }
    }
}

/// Addition is commutative.
pub proof fn lemma_sum_commutative(a: Vec3, b: Vec3)
    ensures
        a.sum(b) == b.sum(a),
{
}

/// Addition is associative wherever neither inner sum is clamped.
pub proof fn lemma_sum_associative(a: Vec3, b: Vec3, c: Vec3)
    requires
        a.sum_is_exact(b),
        b.sum_is_exact(c),
    ensures
        a.sum(b).sum(c) == a.sum(b.sum(c)),
{
}

/// The zero vector is the identity of addition, on either side.
pub proof fn lemma_zero_is_identity(a: Vec3)
    ensures
        a.sum(Vec3 { x: Fixed { raw: 0 }, y: Fixed { raw: 0 }, z: Fixed { raw: 0 } }) == a,
        (Vec3 { x: Fixed { raw: 0 }, y: Fixed { raw: 0 }, z: Fixed { raw: 0 } }).sum(a) == a,
{
}

/// Negation is its own inverse on every vector without a component at the
/// lower bound.
pub proof fn lemma_negation_is_involution(a: Vec3)
    requires
        !a.has_lower_bound(),
    ensures
        a.negation().negation() == a,
{
}

/// Subtraction is addition of the negation, on every `b` without a
/// component at the lower bound.
pub proof fn lemma_difference_is_sum_of_negation(a: Vec3, b: Vec3)
    requires
        !b.has_lower_bound(),
    ensures
        a.difference(b) == a.sum(b.negation()),
{
}

/// The inner product is commutative, before and after rounding.
pub proof fn lemma_dot_commutative(a: Vec3, b: Vec3)
    ensures
        a.exact_dot(b) == b.exact_dot(a),
        a.dot(b) == b.dot(a),
{
    assert(a.exact_dot(b) == b.exact_dot(a)) by (nonlinear_arith)
        requires
            a.exact_dot(b) == a.x.raw * b.x.raw + a.y.raw * b.y.raw + a.z.raw * b.z.raw,
            b.exact_dot(a) == b.x.raw * a.x.raw + b.y.raw * a.y.raw + b.z.raw * a.z.raw,
    ;
}

/// The exact inner product is additive in its first argument wherever the
/// sum of the vectors is not clamped; by commutativity also in its second.
pub proof fn lemma_exact_dot_additive(a: Vec3, b: Vec3, c: Vec3)
    requires
        a.sum_is_exact(b),
    ensures
        a.sum(b).exact_dot(c) == a.exact_dot(c) + b.exact_dot(c),
        c.exact_dot(a.sum(b)) == c.exact_dot(a) + c.exact_dot(b),
{
    let s = a.sum(b);
    assert(s.x.raw == a.x.raw + b.x.raw);
    assert(s.y.raw == a.y.raw + b.y.raw);
    assert(s.z.raw == a.z.raw + b.z.raw);
    assert(s.exact_dot(c) == a.exact_dot(c) + b.exact_dot(c)) by (nonlinear_arith)
        requires
            s.x.raw == a.x.raw + b.x.raw,
            s.y.raw == a.y.raw + b.y.raw,
            s.z.raw == a.z.raw + b.z.raw,
            s.exact_dot(c) == s.x.raw * c.x.raw + s.y.raw * c.y.raw + s.z.raw * c.z.raw,
            a.exact_dot(c) == a.x.raw * c.x.raw + a.y.raw * c.y.raw + a.z.raw * c.z.raw,
            b.exact_dot(c) == b.x.raw * c.x.raw + b.y.raw * c.y.raw + b.z.raw * c.z.raw,
    ;
    lemma_dot_commutative(s, c);
    lemma_dot_commutative(a, c);
    lemma_dot_commutative(b, c);
}

/// The exact inner product is homogeneous for whole factors: scaling a
/// vector by the whole number `n` multiplies it by `n`, wherever the
/// scaled vector is not clamped.
pub proof fn lemma_exact_dot_homogeneous(a: Vec3, n: int, c: Vec3)
    requires
        a.multiple_is_exact(n),
    ensures
        a.scaled(Fixed::whole(n)).x.raw == a.x.raw * n,
        a.scaled(Fixed::whole(n)).y.raw == a.y.raw * n,
        a.scaled(Fixed::whole(n)).z.raw == a.z.raw * n,
        a.scaled(Fixed::whole(n)).exact_dot(c) == n * a.exact_dot(c),
        c.exact_dot(a.scaled(Fixed::whole(n))) == n * c.exact_dot(a),
{
    let k = Fixed::whole(n);
    let s = a.scaled(k);
    assert(k.raw == n * ONE_RAW);
    lemma_whole_product(a.x.raw as int, n);
    lemma_whole_product(a.y.raw as int, n);
    lemma_whole_product(a.z.raw as int, n);
    lemma_multiple_of_products(a.x.raw as int, c.x.raw as int, n);
    lemma_multiple_of_products(a.y.raw as int, c.y.raw as int, n);
    lemma_multiple_of_products(a.z.raw as int, c.z.raw as int, n);
    assert(n * a.exact_dot(c) == n * (a.x.raw * c.x.raw) + n * (a.y.raw * c.y.raw) + n * (a.z.raw
        * c.z.raw)) by (nonlinear_arith)
        requires
            a.exact_dot(c) == a.x.raw * c.x.raw + a.y.raw * c.y.raw + a.z.raw * c.z.raw,
    ;
    lemma_dot_commutative(s, c);
    lemma_dot_commutative(a, c);
}

/// The rounded inner product is additive up to one unit in the last
/// place: the roundings of the two parts may lose one unit between them
/// that the rounding of the whole keeps.  This holds wherever neither the
/// sum of the vectors nor one of the three products is clamped.
pub proof fn lemma_dot_additive(a: Vec3, b: Vec3, c: Vec3)
    requires
        a.sum_is_exact(b),
        a.dot_in_range(c),
        b.dot_in_range(c),
        a.sum(b).dot_in_range(c),
    ensures
        a.sum(b).dot(c).raw == a.dot(c).raw + b.dot(c).raw + (if a.exact_dot(c) % (ONE_RAW as int)
            + b.exact_dot(c) % (ONE_RAW as int) >= ONE_RAW {
            1int
        } else {
            0int
        }),
{
    lemma_exact_dot_additive(a, b, c);
}

/// The square of the length is the squared length, up to the rounding of
/// the square root: it is not above `v . v`, and below it by no more than
/// twice the length in units of the last place, and one.
pub proof fn lemma_length_squared(v: Vec3)
    ensures
        v.length().raw >= 0,
        v.squared().raw >= 0,
        v.length().product(v.length()).raw <= v.squared().raw,
        v.squared().raw - v.length().product(v.length()).raw <= 2 * v.length().raw
            / ONE_RAW as int + 1,
{
    let q = v.squared().raw as int;
    assert(v.exact_dot(v) >= 0) by (nonlinear_arith)
        requires
            v.exact_dot(v) == v.x.raw * v.x.raw + v.y.raw * v.y.raw + v.z.raw * v.z.raw,
    ;
    assert(q >= 0);
    crate::util::fixed::lemma_int_sqrt_exists(q * ONE_RAW);
    let n = crate::util::fixed::int_sqrt(q * ONE_RAW);
    assert(n < 0x1_0000_0000_0000) by (nonlinear_arith)
        requires
            n >= 0,
            n * n <= q * ONE_RAW,
            q <= 0x7fff_ffff_ffff_ffff,
            ONE_RAW == 0x1_0000_0000,
    ;
    assert(v.length().raw == n);
    let u = (n * n) / ONE_RAW as int;
    assert(u <= q) by {
        vstd::arithmetic::div_mod::lemma_div_is_ordered(n * n, q * ONE_RAW, ONE_RAW as int);
        vstd::arithmetic::div_mod::lemma_div_multiples_vanish(q, ONE_RAW as int);
    }
    assert(0 <= n * n) by (nonlinear_arith);
    assert(u >= 0);
    assert(v.length().product(v.length()).raw == u);
    assert(q - u <= 2 * n / ONE_RAW as int + 1) by {
        assert((n + 1) * (n + 1) == n * n + 2 * n + 1) by (nonlinear_arith);
        // q * 2^32 <= n^2 + 2 n, and n^2 < (u + 1) * 2^32
        let k = (2 * n) / ONE_RAW as int;
        assert(n * n < (u + 1) * ONE_RAW);
        assert(2 * n < (k + 1) * ONE_RAW);
        assert(q * ONE_RAW < (u + 1) * ONE_RAW + (k + 1) * ONE_RAW);
    }
}

/// No component of a nearly unit vector exceeds two in size.
pub proof fn lemma_nearly_unit_is_bounded(v: Vec3)
    requires
        v.nearly_unit(),
    ensures
        v.bounded_by_two(),
{
    let s = ONE_RAW as int;
    let (x, y, z) = (v.x.raw as int, v.y.raw as int, v.z.raw as int);
    assert(0 <= x * x && 0 <= y * y && 0 <= z * z) by (nonlinear_arith);
    assert((2 * s) * (2 * s) == 4 * (s * s)) by (nonlinear_arith);
    assert(s * s + 16 * s <= 4 * (s * s)) by (nonlinear_arith)
        requires
            s >= 16,
    ;
    lemma_square_bound(x, 2 * s);
    lemma_square_bound(y, 2 * s);
    lemma_square_bound(z, 2 * s);
}

/// The inequality of Cauchy and Schwarz for the exact inner product:
/// `(a . b)^2 <= (a . a) * (b . b)`.
pub proof fn lemma_cauchy_schwarz(a: Vec3, b: Vec3)
    ensures
        a.exact_dot(b) * a.exact_dot(b) <= a.exact_dot(a) * b.exact_dot(b),
{
    let (a1, a2, a3) = (a.x.raw as int, a.y.raw as int, a.z.raw as int);
    let (b1, b2, b3) = (b.x.raw as int, b.y.raw as int, b.z.raw as int);
    lemma_lagrange(a1, a2, a3, b1, b2, b3);
}

/// The identity of Lagrange, from which the inequality follows: the
/// difference of the two sides is a sum of three squares.
proof fn lemma_lagrange(a1: int, a2: int, a3: int, b1: int, b2: int, b3: int)
    ensures
        (a1 * b1 + a2 * b2 + a3 * b3) * (a1 * b1 + a2 * b2 + a3 * b3) <= (a1 * a1 + a2 * a2 + a3
            * a3) * (b1 * b1 + b2 * b2 + b3 * b3),
{
    let (p11, p12, p13) = (a1 * b1, a1 * b2, a1 * b3);
    let (p21, p22, p23) = (a2 * b1, a2 * b2, a2 * b3);
    let (p31, p32, p33) = (a3 * b1, a3 * b2, a3 * b3);
    lemma_product_of_sums(a1 * a1, a2 * a2, a3 * a3, b1 * b1, b2 * b2, b3 * b3);
    lemma_regroup(a1, a1, b1, b1);
    lemma_regroup(a1, a1, b2, b2);
    lemma_regroup(a1, a1, b3, b3);
    lemma_regroup(a2, a2, b1, b1);
    lemma_regroup(a2, a2, b2, b2);
    lemma_regroup(a2, a2, b3, b3);
    lemma_regroup(a3, a3, b1, b1);
    lemma_regroup(a3, a3, b2, b2);
    lemma_regroup(a3, a3, b3, b3);
    lemma_product_of_sums(p11, p22, p33, p11, p22, p33);
    lemma_crossed(a1, b1, a2, b2);
    lemma_crossed(a1, b1, a3, b3);
    lemma_crossed(a2, b2, a3, b3);
    assert(p22 * p11 == p11 * p22 && p33 * p11 == p11 * p33 && p33 * p22 == p22 * p33)
        by (nonlinear_arith);
    let u = p12 - p21;
    let v = p13 - p31;
    let w = p23 - p32;
    assert(u * u == p12 * p12 - 2 * (p12 * p21) + p21 * p21) by (nonlinear_arith)
        requires
            u == p12 - p21,
    ;
    assert(v * v == p13 * p13 - 2 * (p13 * p31) + p31 * p31) by (nonlinear_arith)
        requires
            v == p13 - p31,
    ;
    assert(w * w == p23 * p23 - 2 * (p23 * p32) + p32 * p32) by (nonlinear_arith)
        requires
            w == p23 - p32,
    ;
    assert(0 <= u * u && 0 <= v * v && 0 <= w * w) by (nonlinear_arith);
    assert((a1 * a1 + a2 * a2 + a3 * a3) * (b1 * b1 + b2 * b2 + b3 * b3) - (p11 + p22 + p33) * (p11
        + p22 + p33) == u * u + v * v + w * w);
}

/// The square of the length is the squared length within one part in
/// 100000, for every vector whose squared length is at least `2^-14`.
pub proof fn lemma_length_squared_relative(v: Vec3)
    requires
        v.squared().raw >= 0x4_0000,
    ensures
        v.length().product(v.length()).raw <= v.squared().raw,
        100000 * (v.squared().raw - v.length().product(v.length()).raw) <= v.squared().raw,
{
    lemma_length_squared(v);
    let s = ONE_RAW as int;
    let q = v.squared().raw as int;
    lemma_int_sqrt_exists(q * s);
    let n = int_sqrt(q * s);
    assert(n < 0x1_0000_0000_0000) by (nonlinear_arith)
        requires
            n >= 0,
            n * n <= q * s,
            q <= 0x7fff_ffff_ffff_ffff,
            s == 0x1_0000_0000,
    ;
    assert(v.length().raw == n);
    let k = (2 * n) / s;
    assert(k * s <= 2 * n);
    assert(k >= 0);
    if k >= 2 {
        assert((k * s) * (k * s) <= (2 * n) * (2 * n)) by (nonlinear_arith)
            requires
                0 <= k * s <= 2 * n,
        ;
        assert((2 * n) * (2 * n) == 4 * (n * n)) by (nonlinear_arith);
        assert((k * s) * (k * s) == (k * k * s) * s) by (nonlinear_arith);
        assert((4 * q) * s == 4 * (q * s)) by (nonlinear_arith);
        assert((k * k * s) * s <= (4 * q) * s);
        assert(s * (k * k * s) == (k * k * s) * s) by (nonlinear_arith);
        assert(s * (4 * q) == (4 * q) * s) by (nonlinear_arith);
        lemma_cancel(s, k * k * s, 4 * q);
        assert(100000 * (k + 1) * 4 <= k * k * s) by (nonlinear_arith)
            requires
                k >= 2,
                s == 0x1_0000_0000,
        ;
    }
}

/// One component of a normalised vector: for a length `n` of at least one
/// half and a component `x` of at most `n + 2` in size, the quotient
/// `u = x / n` is not clamped, is at most two in size, and
/// `n^2 * u^2 == s^2 * x^2 - 2 * s * (x * rho) + rho^2` with the remainder
/// `0 <= rho < n` of the division.
proof fn lemma_unit_component(x: Fixed, length: Fixed)
    requires
        length.raw >= 0x8000_0000,
        -(length.raw + 2) <= x.raw <= length.raw + 2,
    ensures
        ({
            let n = length.raw as int;
            let s = ONE_RAW as int;
            let u = x.quotient(length).raw as int;
            let rho = (x.raw * s) % n;
            &&& u == (x.raw * s) / n
            &&& -(s + 5) <= u <= s + 4
            &&& 0 <= rho < n
            &&& (n * n) * (u * u) == (s * s) * (x.raw * x.raw) - 2 * (s * (x.raw * rho)) + rho * rho
            &&& -((n + 2) * n) <= x.raw * rho <= (n + 2) * n
        }),
{
    let n = length.raw as int;
    let s = ONE_RAW as int;
    let p = x.raw * s;
    let u = p / n;
    let rho = p % n;
    vstd::arithmetic::div_mod::lemma_fundamental_div_mod(p, n);
    vstd::arithmetic::div_mod::lemma_mod_bound(p, n);
    assert(p <= (s + 4) * n) by (nonlinear_arith)
        requires
            p == x.raw * s,
            x.raw <= n + 2,
            2 * n >= s,
            s > 0,
    ;
    assert(-((s + 4) * n) <= p) by (nonlinear_arith)
        requires
            p == x.raw * s,
            -(n + 2) <= x.raw,
            2 * n >= s,
            s > 0,
    ;
    vstd::arithmetic::div_mod::lemma_div_multiples_vanish(s + 4, n);
    vstd::arithmetic::div_mod::lemma_div_is_ordered(p, (s + 4) * n, n);
    assert(-((s + 4) * n) == (-(s + 4)) * n) by (nonlinear_arith);
    vstd::arithmetic::div_mod::lemma_div_multiples_vanish(-(s + 4), n);
    vstd::arithmetic::div_mod::lemma_div_is_ordered((-(s + 4)) * n, p, n);
    assert(x.quotient(length).raw == u);
    assert(n * u == p - rho);
    lemma_regroup(n, u, n, u);
    assert((n * n) * (u * u) == (n * u) * (n * u)) by {
        lemma_regroup(n, n, u, u);
    }
    lemma_square_of_difference(p, rho);
    lemma_regroup(x.raw as int, s, x.raw as int, s);
    assert(p * p == (s * s) * (x.raw * x.raw)) by (nonlinear_arith)
        requires
            p * p == (x.raw * x.raw) * (s * s),
    ;
    assert(p * rho == s * (x.raw * rho)) by (nonlinear_arith)
        requires
            p == x.raw * s,
    ;
    lemma_product_bound(x.raw as int, rho, n + 2, n);
}

/// A normalised vector is nearly unit: for a vector of length at least
/// one half whose components do not exceed `2^14` in size, the exact
/// squared length of `v / |v|` is within 16 units of the last place of
/// one.
pub proof fn lemma_unit_is_nearly_unit(v: Vec3)
    requires
        v.squares_fit(),
        v.length().raw >= 0x8000_0000,
    ensures
        v.unit().nearly_unit(),
{
    let s = ONE_RAW as int;
    let (x1, x2, x3) = (v.x.raw as int, v.y.raw as int, v.z.raw as int);
    let e = v.exact_dot(v);
    let big = 0x4000_0000_0000int;
    lemma_product_bound(x1, x1, big, big);
    lemma_product_bound(x2, x2, big, big);
    lemma_product_bound(x3, x3, big, big);
    assert(big * big == 0x1000_0000_0000_0000_0000_0000) by (nonlinear_arith)
        requires
            big == 0x4000_0000_0000,
    ;
    assert(0 <= x1 * x1 && 0 <= x2 * x2 && 0 <= x3 * x3) by (nonlinear_arith);
    let q = e / s;
    assert(0 <= e <= 3 * 0x1000_0000_0000_0000_0000_0000);
    assert(q == e / 0x1_0000_0000);
    assert(0 <= q <= 0x7fff_ffff_ffff_ffff);
    assert(v.squared().raw == q);
    lemma_int_sqrt_exists(q * s);
    let n = int_sqrt(q * s);
    assert(n < 0x1_0000_0000_0000) by (nonlinear_arith)
        requires
            n >= 0,
            n * n <= q * s,
            q <= 0x7fff_ffff_ffff_ffff,
            s == 0x1_0000_0000,
    ;
    assert(v.length().raw == n);
    assert(2 * n >= s);
    // n^2 <= e < n^2 + 2 n + 1 + s <= (n + 2)^2
    assert((n + 1) * (n + 1) == n * n + 2 * n + 1) by (nonlinear_arith);
    assert((n + 2) * (n + 2) == n * n + 4 * n + 4) by (nonlinear_arith);
    assert(n * n <= e && e <= n * n + 4 * n);
    lemma_square_bound(x1, n + 2);
    lemma_square_bound(x2, n + 2);
    lemma_square_bound(x3, n + 2);
    lemma_unit_component(v.x, v.length());
    lemma_unit_component(v.y, v.length());
    lemma_unit_component(v.z, v.length());
    let unit = v.unit();
    let (u1, u2, u3) = (unit.x.raw as int, unit.y.raw as int, unit.z.raw as int);
    let (r1, r2, r3) = ((x1 * s) % n, (x2 * s) % n, (x3 * s) % n);
    let g = unit.exact_dot(unit);
    let mixed = x1 * r1 + x2 * r2 + x3 * r3;
    let squares = r1 * r1 + r2 * r2 + r3 * r3;
    lemma_distribute(n * n, u1 * u1, u2 * u2, u3 * u3);
    lemma_distribute(s * s, x1 * x1, x2 * x2, x3 * x3);
    lemma_distribute(s, x1 * r1, x2 * r2, x3 * r3);
    assert((n * n) * g == (s * s) * e - 2 * (s * mixed) + squares);
    let nn = n * n;
    assert(nn > 0) by (nonlinear_arith)
        requires
            n > 0,
            nn == n * n,
    ;
    // s^2 (e - n^2) lies between 0 and 8 s n^2
    assert((s * s) * (e - nn) == (s * s) * e - (s * s) * nn) by (nonlinear_arith);
    assert(0 <= (s * s) * (e - nn) <= 8 * (s * nn)) by (nonlinear_arith)
        requires
            0 <= e - nn <= 4 * n,
            0 < s <= 2 * n,
            nn == n * n,
    ;
    // s * mixed is at most 3 s n^2 + 12 n^2 in size
    assert((n + 2) * n == nn + 2 * n) by (nonlinear_arith)
        requires
            nn == n * n,
    ;
    lemma_product_bound(s, mixed, s, 3 * nn + 6 * n);
    assert(s * (3 * nn + 6 * n) <= 3 * (s * nn) + 12 * nn) by (nonlinear_arith)
        requires
            0 < s <= 2 * n,
            nn == n * n,
    ;
    // the squares of the remainders are below 3 n^2
    lemma_product_bound(r1, r1, n, n);
    lemma_product_bound(r2, r2, n, n);
    lemma_product_bound(r3, r3, n, n);
    assert(0 <= r1 * r1 && 0 <= r2 * r2 && 0 <= r3 * r3) by (nonlinear_arith);
    assert(nn * (g - s * s) == nn * g - nn * (s * s)) by (nonlinear_arith);
    assert(nn * (s * s) == (s * s) * nn) by (nonlinear_arith);
    assert(27 * nn <= s * nn) by (nonlinear_arith)
        requires
            nn > 0,
            s >= 27,
    ;
    assert(nn * (g - s * s) <= 15 * (s * nn));
    assert(nn * (g - s * s) >= -7 * (s * nn));
    assert(15 * (s * nn) == nn * (15 * s)) by (nonlinear_arith);
    assert(-7 * (s * nn) == nn * (-7 * s)) by (nonlinear_arith);
    lemma_cancel(nn, g - s * s, 15 * s);
    lemma_cancel(nn, -7 * s, g - s * s);
}

/// A vector whose squared length is at least one quarter is at least one
/// half long.
pub proof fn lemma_long_enough(v: Vec3)
    requires
        v.squared().raw >= 0x4000_0000,
    ensures
        v.length().raw >= 0x8000_0000,
{
    let s = ONE_RAW as int;
    let q = v.squared().raw as int;
    lemma_int_sqrt_exists(q * s);
    let n = int_sqrt(q * s);
    assert(n < 0x1_0000_0000_0000) by (nonlinear_arith)
        requires
            n >= 0,
            n * n <= q * s,
            q <= 0x7fff_ffff_ffff_ffff,
            s == 0x1_0000_0000,
    ;
    assert(v.length().raw == n);
    assert(n >= 0x8000_0000) by (nonlinear_arith)
        requires
            n >= 0,
            q * s < (n + 1) * (n + 1),
            q >= 0x4000_0000,
            s == 0x1_0000_0000,
    ;
}

/// A vector with a component of at least one half in size, and none
/// above `2^14`, is at least one half long.
pub proof fn lemma_long_as_component(v: Vec3)
    requires
        v.squares_fit(),
        v.x.raw <= -0x8000_0000 || v.x.raw >= 0x8000_0000 || v.y.raw <= -0x8000_0000 || v.y.raw
            >= 0x8000_0000 || v.z.raw <= -0x8000_0000 || v.z.raw >= 0x8000_0000,
    ensures
        v.length().raw >= 0x8000_0000,
{
    let (x, y, z) = (v.x.raw as int, v.y.raw as int, v.z.raw as int);
    let big = 0x4000_0000_0000int;
    lemma_product_bound(x, x, big, big);
    lemma_product_bound(y, y, big, big);
    lemma_product_bound(z, z, big, big);
    assert(big * big == 0x1000_0000_0000_0000_0000_0000) by (nonlinear_arith)
        requires
            big == 0x4000_0000_0000,
    ;
    assert(0 <= x * x && 0 <= y * y && 0 <= z * z) by (nonlinear_arith);
    assert(x * x >= 0x4000_0000_0000_0000 || y * y >= 0x4000_0000_0000_0000 || z * z
        >= 0x4000_0000_0000_0000) by (nonlinear_arith)
        requires
            x <= -0x8000_0000 || x >= 0x8000_0000 || y <= -0x8000_0000 || y >= 0x8000_0000 || z
                <= -0x8000_0000 || z >= 0x8000_0000,
    ;
    let e = v.exact_dot(v);
    assert(0x4000_0000_0000_0000 <= e <= 3 * 0x1000_0000_0000_0000_0000_0000);
    assert(v.squared().raw == e / 0x1_0000_0000);
    lemma_long_enough(v);
}

/// The length of a nearly unit vector is within 16 units of the last
/// place of one.
pub proof fn lemma_nearly_unit_length(u: Vec3)
    requires
        u.nearly_unit(),
    ensures
        ONE_RAW - 16 <= u.squared().raw <= ONE_RAW + 16,
        ONE_RAW - 16 <= u.length().raw <= ONE_RAW + 16,
{
    let s = ONE_RAW as int;
    let g = u.exact_dot(u);
    let q = g / s;
    assert(s * s - 16 * s == (s - 16) * s) by (nonlinear_arith);
    assert(s * s + 16 * s == (s + 16) * s) by (nonlinear_arith);
    vstd::arithmetic::div_mod::lemma_div_multiples_vanish(s - 16, s);
    vstd::arithmetic::div_mod::lemma_div_multiples_vanish(s + 16, s);
    vstd::arithmetic::div_mod::lemma_div_is_ordered((s - 16) * s, g, s);
    vstd::arithmetic::div_mod::lemma_div_is_ordered(g, (s + 16) * s, s);
    assert(u.squared().raw == q);
    lemma_int_sqrt_exists(q * s);
    let n = int_sqrt(q * s);
    assert(n < 0x1_0000_0000_0000) by (nonlinear_arith)
        requires
            n >= 0,
            n * n <= q * s,
            q <= 0x7fff_ffff_ffff_ffff,
            s == 0x1_0000_0000,
    ;
    assert(u.length().raw == n);
    assert(n >= s - 16) by (nonlinear_arith)
        requires
            n >= 0,
            q * s < (n + 1) * (n + 1),
            q >= s - 16,
            s == 0x1_0000_0000,
    ;
    assert(n <= s + 16) by (nonlinear_arith)
        requires
            n >= 0,
            n * n <= q * s,
            q <= s + 16,
            s == 0x1_0000_0000,
    ;
}

} // verus!
