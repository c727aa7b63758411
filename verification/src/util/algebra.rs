//! Identities and bounds of integer arithmetic that the proofs about
//! rounding rest on.
use crate::util::fixed::ONE_RAW;
use vstd::prelude::*;

verus! {

/// The product of two numbers of bounded size is bounded.
pub proof fn lemma_product_bound(a: int, b: int, p: int, q: int)
    requires
        -p <= a <= p,
        -q <= b <= q,
    ensures
        -(p * q) <= a * b <= p * q,
{
    assert(-(p * q) <= a * b <= p * q) by (nonlinear_arith)
        requires
            -p <= a <= p,
            -q <= b <= q,
    ;
}

/// A square below that of `bound` belongs to a number below `bound`.
pub proof fn lemma_square_bound(x: int, bound: int)
    requires
        bound >= 0,
        x * x <= bound * bound,
    ensures
        -bound <= x <= bound,
{
    assert(-bound <= x <= bound) by (nonlinear_arith)
        requires
            bound >= 0,
            x * x <= bound * bound,
    ;
}

/// `k * (x + y + z)` term by term.
pub proof fn lemma_distribute(k: int, x: int, y: int, z: int)
    ensures
        k * (x + y + z) == k * x + k * y + k * z,
{
    assert(k * (x + y + z) == k * x + k * y + k * z) by (nonlinear_arith);
}

/// The square of a difference.
pub proof fn lemma_square_of_difference(p: int, q: int)
    ensures
        (p - q) * (p - q) == p * p - 2 * (p * q) + q * q,
{
    assert((p - q) * (p - q) == p * p - 2 * (p * q) + q * q) by (nonlinear_arith);
}

/// `(a * b) * (c * d) == (a * c) * (b * d)`.
pub proof fn lemma_regroup(a: int, b: int, c: int, d: int)
    ensures
        (a * b) * (c * d) == (a * c) * (b * d),
{
    assert((a * b) * (c * d) == (a * c) * (b * d)) by (nonlinear_arith);
}

/// `(a * d) * (c * b) == (a * b) * (c * d)`.
pub proof fn lemma_crossed(a: int, b: int, c: int, d: int)
    ensures
        (a * d) * (c * b) == (a * b) * (c * d),
{
    assert((a * d) * (c * b) == (a * b) * (c * d)) by (nonlinear_arith);
}

/// The product of two sums of three, term by term.
pub proof fn lemma_product_of_sums(x1: int, x2: int, x3: int, y1: int, y2: int, y3: int)
    ensures
        (x1 + x2 + x3) * (y1 + y2 + y3) == x1 * y1 + x1 * y2 + x1 * y3 + x2 * y1 + x2 * y2 + x2
            * y3 + x3 * y1 + x3 * y2 + x3 * y3,
{
    assert((x1 + x2 + x3) * (y1 + y2 + y3) == x1 * y1 + x1 * y2 + x1 * y3 + x2 * y1 + x2 * y2 + x2
        * y3 + x3 * y1 + x3 * y2 + x3 * y3) by (nonlinear_arith);
}

/// `(a * n) * c == n * (a * c)`.
pub proof fn lemma_multiple_of_products(a: int, c: int, n: int)
    ensures
        (a * n) * c == n * (a * c),
{
    assert((a * n) * c == n * (a * c)) by (nonlinear_arith);
}

/// A product with a whole number needs no rounding.
pub proof fn lemma_whole_product(a: int, n: int)
    ensures
        (a * (n * ONE_RAW)) / ONE_RAW as int == a * n,
{
    assert(a * (n * ONE_RAW) == (a * n) * ONE_RAW) by (nonlinear_arith);
    vstd::arithmetic::div_mod::lemma_div_multiples_vanish(a * n, ONE_RAW as int);
}

/// A common positive factor can be dropped from an inequality.
pub proof fn lemma_cancel(k: int, a: int, b: int)
    requires
        k > 0,
        k * a <= k * b,
    ensures
        a <= b,
{
    assert(a <= b) by (nonlinear_arith)
        requires
            k > 0,
            k * a <= k * b,
    ;
}

} // verus!
