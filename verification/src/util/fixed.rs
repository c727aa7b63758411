//! Saturating fixed-point numbers with 32 fractional bits.
//!
//! A [`Fixed`] with raw value `r` stands for the rational `r / 2^32`.
//! Sums and differences are exact unless they leave the 64-bit range, in
//! which case they are clamped.  Products, quotients and square roots are
//! rounded down to the next representable number and then clamped.
use core::ops::Neg;
use vstd::prelude::*;

verus! {

/// The raw value of the number one: `2^32`.
pub const ONE_RAW: i64 = 0x1_0000_0000;

/// The 64-bit value nearest to `v`.
pub open spec fn saturate(v: int) -> i64 {
    if v < i64::MIN {
        i64::MIN
    } else if v > i64::MAX {
        i64::MAX
    } else {
        v as i64
    }
}

/// The largest integer not above the rational `n / d`, for `d != 0`.
pub open spec fn floor_div(n: int, d: int) -> int {
    if d > 0 {
        n / d
    } else {
        (-n) / (-d)
    }
}

/// `r` is the integer square root of `n`: the largest `r >= 0` with `r * r <= n`.
pub open spec fn is_int_sqrt(n: int, r: int) -> bool {
    0 <= r && r * r <= n && n < (r + 1) * (r + 1)
}

/// The integer square root of `n`; meaningful for `n >= 0`.
pub open spec fn int_sqrt(n: int) -> int {
    choose|r: int| is_int_sqrt(n, r)
}

/// Every natural number has an integer square root.
pub proof fn lemma_int_sqrt_exists(n: int)
    requires
        n >= 0,
    ensures
        is_int_sqrt(n, int_sqrt(n)),
    decreases n,
{
    if n == 0 {
        assert(is_int_sqrt(0, 0));
    } else {
        lemma_int_sqrt_exists(n - 1);
        let r = int_sqrt(n - 1);
        if (r + 1) * (r + 1) <= n {
            assert((r + 1) * (r + 1) == n);
            assert(n < (r + 2) * (r + 2)) by (nonlinear_arith)
                requires
                    (r + 1) * (r + 1) == n,
                    r >= 0,
            ;
            assert(is_int_sqrt(n, r + 1));
        } else {
            assert(is_int_sqrt(n, r));
        }
    }
}

/// The integer square root is unique.
pub proof fn lemma_int_sqrt_unique(n: int, r: int)
    requires
        is_int_sqrt(n, r),
    ensures
        int_sqrt(n) == r,
{
    let s = int_sqrt(n);
    assert(is_int_sqrt(n, s));
    assert(s == r) by (nonlinear_arith)
        requires
            0 <= r,
            0 <= s,
            r * r <= n,
            n < (r + 1) * (r + 1),
            s * s <= n,
            n < (s + 1) * (s + 1),
    ;
}

/// The product of two numbers between zero and one lies between zero and
/// one.
pub proof fn lemma_product_of_fractions(a: Fixed, b: Fixed)
    requires
        0 <= a.raw <= ONE_RAW,
        0 <= b.raw <= ONE_RAW,
    ensures
        0 <= a.product(b).raw <= ONE_RAW,
        a.product(b).raw <= a.raw,
        a.product(b).raw <= b.raw,
{
    let s = ONE_RAW as int;
    let p = a.raw * b.raw;
    assert(0 <= p && p <= a.raw * s && p <= b.raw * s) by (nonlinear_arith)
        requires
            0 <= a.raw <= s,
            0 <= b.raw <= s,
            p == a.raw * b.raw,
    ;
    vstd::arithmetic::div_mod::lemma_div_multiples_vanish(a.raw as int, s);
    vstd::arithmetic::div_mod::lemma_div_multiples_vanish(b.raw as int, s);
    vstd::arithmetic::div_mod::lemma_div_is_ordered(p, a.raw * s, s);
    vstd::arithmetic::div_mod::lemma_div_is_ordered(p, b.raw * s, s);
}

/// A product with one needs no rounding.
pub proof fn lemma_product_with_one(a: Fixed)
    ensures
        (Fixed { raw: ONE_RAW }).product(a) == a,
        a.product(Fixed { raw: ONE_RAW }) == a,
{
    assert(ONE_RAW * a.raw == a.raw * ONE_RAW) by (nonlinear_arith);
    vstd::arithmetic::div_mod::lemma_div_multiples_vanish(a.raw as int, ONE_RAW as int);
}

/// A whole number of moderate size is represented exactly, and so is
/// its half.
pub proof fn lemma_half_of_whole(k: int)
    requires
        -0x10_0000 <= k <= 0x10_0000,
    ensures
        Fixed::whole(k).raw == k * ONE_RAW,
        Fixed::ratio(k, 1).raw == k * ONE_RAW,
        Fixed::ratio(k, 2).raw == k * 0x8000_0000,
{
    let s = ONE_RAW as int;
    assert((k * s) * s == (k * 0x8000_0000) * (2 * s)) by (nonlinear_arith)
        requires
            s == 0x1_0000_0000,
    ;
    vstd::arithmetic::div_mod::lemma_div_multiples_vanish(k * 0x8000_0000, 2 * s);
    vstd::arithmetic::div_mod::lemma_div_multiples_vanish(k * s, s);
}

/// Every power of a number between zero and one lies between zero and
/// one; the power zero is one and the power one is the number itself.
pub proof fn lemma_power_of_fraction(x: Fixed, n: nat)
    requires
        0 <= x.raw <= ONE_RAW,
    ensures
        0 <= x.power(n).raw <= ONE_RAW,
        x.power(0).raw == ONE_RAW,
        x.power(1) == x,
    decreases n,
{
    let one = Fixed { raw: ONE_RAW };
    assert(x.power(0) == one);
    lemma_product_with_one(one);
    lemma_product_with_one(x);
    assert(x.power(1) == x) by {
        reveal_with_fuel(Fixed::power, 2);
    }
    if n > 0 {
        lemma_power_of_fraction(x, n / 2);
        let half = x.power(n / 2);
        lemma_product_of_fractions(half, half);
        lemma_product_of_fractions(half.product(half), x);
    }
}

/// Clamps a wide intermediate result to 64 bits.
pub(crate) fn clamp_wide(v: i128) -> (r: i64)
    ensures
        r == saturate(v as int),
{
    if v < i64::MIN as i128 {
        i64::MIN
    } else if v > i64::MAX as i128 {
        i64::MAX
    } else {
        v as i64
    }
}

/// Floor division by a positive divisor.
pub(crate) fn floor_div_wide(n: i128, d: i128) -> (q: i128)
    requires
        d > 0,
        n > i128::MIN,
    ensures
        q == n as int / d as int,
{
    if n >= 0 {
        n / d
    } else {
        let a: i128 = -n;
        let q: i128 = a / d;
        let m: i128 = a % d;
        proof {
            lemma_floor_div_negated(a as int, d as int);
        }
        if m == 0 {
            -q
        } else {
            -q - 1
        }
    }
}

/// Floor division of `-a` from the Euclidean division of `a >= 0`.
proof fn lemma_floor_div_negated(a: int, d: int)
    requires
        a >= 0,
        d > 0,
    ensures
        a % d == 0 ==> (-a) / d == -(a / d),
        a % d != 0 ==> (-a) / d == -(a / d) - 1,
{
    let q = a / d;
    let m = a % d;
    vstd::arithmetic::div_mod::lemma_fundamental_div_mod(a, d);
    assert(a == d * q + m);
    assert(0 <= m < d) by {
        vstd::arithmetic::div_mod::lemma_mod_bound(a, d);
    }
    if m == 0 {
        assert(-a == d * (-q) + 0) by (nonlinear_arith)
            requires
                a == d * q + m,
                m == 0,
        ;
        vstd::arithmetic::div_mod::lemma_fundamental_div_mod_converse(-a, d, -q, 0);
    } else {
        assert(-a == d * (-q - 1) + (d - m)) by (nonlinear_arith)
            requires
                a == d * q + m,
        ;
        vstd::arithmetic::div_mod::lemma_fundamental_div_mod_converse(-a, d, -q - 1, d - m);
    }
}

/// Integer square root by bisection.
fn int_sqrt_wide(n: u128) -> (r: u64)
    requires
        n < 0x1_0000_0000_0000_0000_0000_0000,
    ensures
        r == int_sqrt(n as int),
        r < 0x1_0000_0000_0000,
{
    let mut lo: u128 = 0;
    let mut hi: u128 = 0x1_0000_0000_0000;
    assert(hi * hi == 0x1_0000_0000_0000_0000_0000_0000) by (nonlinear_arith)
        requires
            hi == 0x1_0000_0000_0000,
    ;
    assert(lo * lo == 0) by (nonlinear_arith)
        requires
            lo == 0,
    ;
    while hi - lo > 1
        invariant
            lo < hi <= 0x1_0000_0000_0000,
            lo * lo <= n,
            n < hi * hi,
        decreases hi - lo,
    {
        let mid: u128 = lo + (hi - lo) / 2;
        assert(mid * mid < 0x1_0000_0000_0000_0000_0000_0000) by (nonlinear_arith)
            requires
                mid < 0x1_0000_0000_0000,
        ;
        if mid * mid <= n {
            lo = mid;
        } else {
            hi = mid;
        }
    }
    proof {
        assert(hi == lo + 1);
        lemma_int_sqrt_unique(n as int, lo as int);
    }
    lo as u64
}

/// A fixed-point number: `raw / 2^32`.
#[derive(Clone, Copy, Debug, PartialEq, Eq, Structural)]
pub struct Fixed {
    pub raw: i64,
}

impl Fixed {
    /// The number `n`, clamped to the representable range.
    pub open spec fn whole(n: int) -> Fixed {
        Fixed { raw: saturate(n * ONE_RAW) }
    }

    /// The fraction `num / den`, rounded down.
    pub open spec fn ratio(num: int, den: int) -> Fixed {
        Fixed::whole(num).quotient(Fixed::whole(den))
    }

    /// `self + rhs`, clamped.
    pub open spec fn sum(self, rhs: Fixed) -> Fixed {
        Fixed { raw: saturate(self.raw + rhs.raw) }
    }

    /// `self - rhs`, clamped.
    pub open spec fn difference(self, rhs: Fixed) -> Fixed {
        Fixed { raw: saturate(self.raw - rhs.raw) }
    }

    /// `-self`, clamped.
    pub open spec fn negation(self) -> Fixed {
        Fixed { raw: saturate(-self.raw) }
    }

    /// `|self|`, clamped.
    pub open spec fn magnitude(self) -> Fixed {
        if self.raw < 0 {
            self.negation()
        } else {
            self
        }
    }

    /// `self * rhs`, rounded down and clamped.
    pub open spec fn product(self, rhs: Fixed) -> Fixed {
        Fixed { raw: saturate((self.raw * rhs.raw) / ONE_RAW as int) }
    }

    /// `self / rhs`, rounded down and clamped.  A non-zero number divided by
    /// zero is the bound of its sign; zero divided by zero is zero.
    pub open spec fn quotient(self, rhs: Fixed) -> Fixed {
        if rhs.raw == 0 {
            if self.raw > 0 {
                Fixed { raw: i64::MAX }
            } else if self.raw < 0 {
                Fixed { raw: i64::MIN }
            } else {
                Fixed { raw: 0 }
            }
        } else {
            Fixed { raw: saturate(floor_div(self.raw * ONE_RAW, rhs.raw as int)) }
        }
    }

    /// The square root of `self`, rounded down; zero for a negative number.
    pub open spec fn root(self) -> Fixed {
        if self.raw < 0 {
            Fixed { raw: 0 }
        } else {
            Fixed { raw: int_sqrt(self.raw * ONE_RAW) as i64 }
        }
    }

    /// `self` raised to the power `n` by repeated squaring, each product
    /// rounded down and clamped.
    pub open spec fn power(self, n: nat) -> Fixed
        decreases n,
    {
        if n == 0 {
            Fixed { raw: ONE_RAW }
        } else {
            let half = self.power(n / 2);
            let squared = half.product(half);
            if n % 2 == 1 {
                squared.product(self)
            } else {
                squared
            }
        }
    }

    /// The larger of two numbers.
    pub open spec fn larger(self, rhs: Fixed) -> Fixed {
        if self.raw >= rhs.raw {
            self
        } else {
            rhs
        }
    }

    /// The smaller of two numbers.
    pub open spec fn smaller(self, rhs: Fixed) -> Fixed {
        if self.raw <= rhs.raw {
            self
        } else {
            rhs
        }
    }

    /// The integer part of `self`, rounded toward zero.
    pub open spec fn truncated(self) -> int {
        if self.raw >= 0 {
            self.raw as int / ONE_RAW as int
        } else {
            -((-self.raw) / ONE_RAW as int)
        }
    }

    /// The number zero.
    pub fn zero() -> (r: Fixed)
        ensures
            r.raw == 0,
    {
        Fixed { raw: 0 }
    }

    /// The number one.
    pub fn one() -> (r: Fixed)
        ensures
            r.raw == ONE_RAW,
    {
        Fixed { raw: ONE_RAW }
    }

    /// The whole number `n`; every `i32` is representable.
    pub fn from_int(n: i32) -> (r: Fixed)
        ensures
            r == Fixed::whole(n as int),
            r.raw == n * ONE_RAW,
    {
        Fixed { raw: (n as i64) * ONE_RAW }
    }

    /// The whole number `n`, clamped to the upper bound from `2^31` on.
    pub fn from_u64(n: u64) -> (r: Fixed)
        ensures
            r == Fixed::whole(n as int),
    {
        if n >= 0x8000_0000 {
            Fixed { raw: i64::MAX }
        } else {
            Fixed { raw: (n as i64) * ONE_RAW }
        }
    }

    /// The fraction `num / den`, rounded down.
    pub fn from_ratio(num: i32, den: i32) -> (r: Fixed)
        ensures
            r == Fixed::ratio(num as int, den as int),
    {
        Fixed::from_int(num) / Fixed::from_int(den)
    }

    /// The size `|self|`; that of the lower bound is the upper bound.
    pub fn abs(self) -> (r: Fixed)
        ensures
            r == self.magnitude(),
    {
        if self.raw < 0 {
            self.neg()
        } else {
            self
        }
    }

    /// The square root, rounded down; zero for a negative number.
    pub fn sqrt(self) -> (r: Fixed)
        ensures
            r == self.root(),
    {
        if self.raw < 0 {
            Fixed { raw: 0 }
        } else {
            let wide: u128 = (self.raw as u128) * 0x1_0000_0000;
            let r: u64 = int_sqrt_wide(wide);
            Fixed { raw: r as i64 }
        }
    }

    /// `self` raised to the power `n` by repeated squaring.
    pub fn powi(self, n: u32) -> (r: Fixed)
        ensures
            r == self.power(n as nat),
        decreases n,
    {
        if n == 0 {
            Fixed { raw: ONE_RAW }
        } else {
            let half = self.powi(n / 2);
            let squared = half * half;
            if n % 2 == 1 {
                squared * self
            } else {
                squared
            }
        }
    }

    /// The larger of two numbers.
    pub fn max(self, rhs: Fixed) -> (r: Fixed)
        ensures
            r == self.larger(rhs),
    {
        if self.raw >= rhs.raw {
            self
        } else {
            rhs
        }
    }

    /// The smaller of two numbers.
    pub fn min(self, rhs: Fixed) -> (r: Fixed)
        ensures
            r == self.smaller(rhs),
    {
        if self.raw <= rhs.raw {
            self
        } else {
            rhs
        }
    }

    /// The integer part, rounded toward zero.
    pub fn to_int(self) -> (r: i32)
        ensures
            r == self.truncated(),
    {
        (self.raw / ONE_RAW) as i32
    }
}

impl core::ops::Add for Fixed {
    type Output = Fixed;

    /// `self + rhs`.
    fn add(self, rhs: Fixed) -> (r: Fixed)
        ensures
            r == self.sum(rhs),
    {
        Fixed { raw: clamp_wide(self.raw as i128 + rhs.raw as i128) }
    }
}

impl vstd::std_specs::ops::AddSpecImpl for Fixed {
    open spec fn obeys_add_spec() -> bool {
        true
    }

    open spec fn add_req(self, rhs: Fixed) -> bool {
        true
    }

    open spec fn add_spec(self, rhs: Fixed) -> Fixed {
        self.sum(rhs)
    }
}

impl core::ops::Sub for Fixed {
    type Output = Fixed;

    /// `self - rhs`.
    fn sub(self, rhs: Fixed) -> (r: Fixed)
        ensures
            r == self.difference(rhs),
    {
        Fixed { raw: clamp_wide(self.raw as i128 - rhs.raw as i128) }
    }
}

impl vstd::std_specs::ops::SubSpecImpl for Fixed {
    open spec fn obeys_sub_spec() -> bool {
        true
    }

    open spec fn sub_req(self, rhs: Fixed) -> bool {
        true
    }

    open spec fn sub_spec(self, rhs: Fixed) -> Fixed {
        self.difference(rhs)
    }
}

impl core::ops::Neg for Fixed {
    type Output = Fixed;

    /// `-self`.
    fn neg(self) -> (r: Fixed)
        ensures
            r == self.negation(),
    {
        Fixed { raw: clamp_wide(-(self.raw as i128)) }
    }
}

impl vstd::std_specs::ops::NegSpecImpl for Fixed {
    open spec fn obeys_neg_spec() -> bool {
        true
    }

    open spec fn neg_req(self) -> bool {
        true
    }

    open spec fn neg_spec(self) -> Fixed {
        self.negation()
    }
}

impl core::ops::Mul for Fixed {
    type Output = Fixed;

    /// `self * rhs`, rounded down.
    fn mul(self, rhs: Fixed) -> (r: Fixed)
        ensures
            r == self.product(rhs),
    {
        let a: i128 = self.raw as i128;
        let b: i128 = rhs.raw as i128;
        assert(-0x4000_0000_0000_0000_0000_0000_0000_0000 <= a * b
            <= 0x4000_0000_0000_0000_0000_0000_0000_0000) by (nonlinear_arith)
            requires
                -0x8000_0000_0000_0000 <= a <= 0x8000_0000_0000_0000,
                -0x8000_0000_0000_0000 <= b <= 0x8000_0000_0000_0000,
        ;
        Fixed { raw: clamp_wide(floor_div_wide(a * b, 0x1_0000_0000)) }
    }
}

impl vstd::std_specs::ops::MulSpecImpl for Fixed {
    open spec fn obeys_mul_spec() -> bool {
        true
    }

    open spec fn mul_req(self, rhs: Fixed) -> bool {
        true
    }

    open spec fn mul_spec(self, rhs: Fixed) -> Fixed {
        self.product(rhs)
    }
}

impl core::ops::Div for Fixed {
    type Output = Fixed;

    /// `self / rhs`, rounded down.
    fn div(self, rhs: Fixed) -> (r: Fixed)
        ensures
            r == self.quotient(rhs),
    {
        if rhs.raw == 0 {
            if self.raw > 0 {
                Fixed { raw: i64::MAX }
            } else if self.raw < 0 {
                Fixed { raw: i64::MIN }
            } else {
                Fixed { raw: 0 }
            }
        } else {
            let n: i128 = (self.raw as i128) * 0x1_0000_0000;
            let d: i128 = rhs.raw as i128;
            if d > 0 {
                Fixed { raw: clamp_wide(floor_div_wide(n, d)) }
            } else {
                Fixed { raw: clamp_wide(floor_div_wide(-n, -d)) }
            }
        }
    }
}

impl vstd::std_specs::ops::DivSpecImpl for Fixed {
    open spec fn obeys_div_spec() -> bool {
        true
    }

    open spec fn div_req(self, rhs: Fixed) -> bool {
        true
    }

    open spec fn div_spec(self, rhs: Fixed) -> Fixed {
        self.quotient(rhs)
    }
}

} // verus!
