//! Identities of polynomials that the proofs about vectors rest on.

use vstd::prelude::*;
use vstd::arithmetic::mul::{
    lemma_mul_is_associative, lemma_mul_is_distributive_add,
    lemma_mul_is_distributive_add_other_way,
};

verus! {


/// The foot of the origin on the line through `(x0, y0)` and `(x1, y1)`,
/// times the squared length of the segment between them: its `x`.
pub proof fn lemma_foot_x(x0: int, y0: int, x1: int, y1: int)
    by (nonlinear_arith)
    ensures
        (((x1 - x0) * (x1 - x0) + (y1 - y0) * (y1 - y0)) - (-(x0 * (x1 - x0) + y0 * (y1 - y0))))
            * x0 + (-(x0 * (x1 - x0) + y0 * (y1 - y0))) * x1 == (y1 - y0) * (x0 * (y1 - y0) - y0 * (
            x1 - x0)),
{
}

/// The foot of the origin on the line through `(x0, y0)` and `(x1, y1)`,
/// times the squared length of the segment between them: its `y`.
pub proof fn lemma_foot_y(x0: int, y0: int, x1: int, y1: int)
    by (nonlinear_arith)
    ensures
        (((x1 - x0) * (x1 - x0) + (y1 - y0) * (y1 - y0)) - (-(x0 * (x1 - x0) + y0 * (y1 - y0))))
            * y0 + (-(x0 * (x1 - x0) + y0 * (y1 - y0))) * y1 == -((x1 - x0) * (x0 * (y1 - y0) - y0
            * (x1 - x0))),
{
}

/// A multiple of a dot product is the dot product of the multiple.
pub proof fn lemma_weighted_dot(l: int, x: int, y: int, dx: int, dy: int)
    ensures
        l * (x * dx + y * dy) == (l * x) * dx + (l * y) * dy,
{
    lemma_mul_is_distributive_add(l, x * dx, y * dy);
    lemma_mul_is_associative(l, x, dx);
    lemma_mul_is_associative(l, y, dy);
}

/// A sum of two dot products with weights is the dot product of the sum of
/// the vectors with those weights.
pub proof fn lemma_weighted_dot2(l0: int, l1: int, x0: int, y0: int, x1: int, y1: int, dx: int, dy: int)
    ensures
        l0 * (x0 * dx + y0 * dy) + l1 * (x1 * dx + y1 * dy) == (l0 * x0 + l1 * x1) * dx + (l0 * y0
            + l1 * y1) * dy,
{
    lemma_weighted_dot(l0, x0, y0, dx, dy);
    lemma_weighted_dot(l1, x1, y1, dx, dy);
    lemma_mul_is_distributive_add_other_way(dx, l0 * x0, l1 * x1);
    lemma_mul_is_distributive_add_other_way(dy, l0 * y0, l1 * y1);
}

/// A sum of three dot products with weights is the dot product of the sum of
/// the vectors with those weights.
pub proof fn lemma_weighted_dot3(
    l0: int,
    l1: int,
    l2: int,
    x0: int,
    y0: int,
    x1: int,
    y1: int,
    x2: int,
    y2: int,
    dx: int,
    dy: int,
)
    ensures
        l0 * (x0 * dx + y0 * dy) + l1 * (x1 * dx + y1 * dy) + l2 * (x2 * dx + y2 * dy) == (l0 * x0
            + l1 * x1 + l2 * x2) * dx + (l0 * y0 + l1 * y1 + l2 * y2) * dy,
{
    lemma_weighted_dot(l0, x0, y0, dx, dy);
    lemma_weighted_dot(l1, x1, y1, dx, dy);
    lemma_weighted_dot(l2, x2, y2, dx, dy);
    lemma_mul_is_distributive_add_other_way(dx, l0 * x0 + l1 * x1, l2 * x2);
    lemma_mul_is_distributive_add_other_way(dx, l0 * x0, l1 * x1);
    lemma_mul_is_distributive_add_other_way(dy, l0 * y0 + l1 * y1, l2 * y2);
    lemma_mul_is_distributive_add_other_way(dy, l0 * y0, l1 * y1);
}

/// The square of a product is the product of the squares.
pub proof fn lemma_square_of_product(a: int, b: int)
    by (nonlinear_arith)
    ensures
        (a * b) * (a * b) == (a * a) * (b * b),
{
}

/// A product of two products may exchange one factor of each.
pub proof fn lemma_cross_products(a: int, b: int, c: int, d: int)
    by (nonlinear_arith)
    ensures
        (a * b) * (c * d) == (a * d) * (c * b),
{
}

/// The square of a sum and of a difference.
pub proof fn lemma_binomial(p: int, q: int)
    by (nonlinear_arith)
    ensures
        (p + q) * (p + q) == p * p + 2 * (p * q) + q * q,
        (p - q) * (p - q) == p * p - 2 * (p * q) + q * q,
{
}

/// The product of two sums.
pub proof fn lemma_product_of_sums(a: int, b: int, c: int, d: int)
    by (nonlinear_arith)
    ensures
        (a + b) * (c + d) == a * c + a * d + b * c + b * d,
{
}

/// The squares of the dot product and of the cross product of two vectors add
/// up to the product of their squared lengths.
pub proof fn lemma_lagrange(ax: int, ay: int, bx: int, by: int)
    ensures
        (ax * ax + ay * ay) * (bx * bx + by * by) - (ax * bx + ay * by) * (ax * bx + ay * by) == (ax
            * by - ay * bx) * (ax * by - ay * bx),
{
    lemma_product_of_sums(ax * ax, ay * ay, bx * bx, by * by);
    lemma_binomial(ax * bx, ay * by);
    lemma_binomial(ax * by, ay * bx);
    lemma_square_of_product(ax, bx);
    lemma_square_of_product(ay, by);
    lemma_square_of_product(ax, by);
    lemma_square_of_product(ay, bx);
    lemma_cross_products(ax, bx, ay, by);
}


/// The identity by which three vectors of the plane, each with the cross
/// product of the other two as its weight, add up to nothing.
pub proof fn lemma_triangle_weights(x0: int, y0: int, x1: int, y1: int, x2: int, y2: int)
    by (nonlinear_arith)
    ensures
        (x1 * y2 - y1 * x2) * x0 + (x2 * y0 - y2 * x0) * x1 + (x0 * y1 - y0 * x1) * x2 == 0,
        (x1 * y2 - y1 * x2) * y0 + (x2 * y0 - y2 * x0) * y1 + (x0 * y1 - y0 * x1) * y2 == 0,
{
}

/// A vector `u`, times the squared length of `e`, in its parts along `e` and
/// across it.
pub proof fn lemma_decompose(ex: int, ey: int, ux: int, uy: int)
    by (nonlinear_arith)
    ensures
        (ex * ex + ey * ey) * ux == (ex * ux + ey * uy) * ex - (ex * uy - ey * ux) * ey,
        (ex * ex + ey * ey) * uy == (ex * ux + ey * uy) * ey + (ex * uy - ey * ux) * ex,
{
}

/// A multiple of a cross product is the cross product with the multiple.
pub proof fn lemma_weighted_cross(k: int, gx: int, gy: int, ux: int, uy: int)
    ensures
        k * (gx * uy - gy * ux) == gx * (k * uy) - gy * (k * ux),
{
    vstd::arithmetic::mul::lemma_mul_is_distributive_sub(k, gx * uy, gy * ux);
    lemma_mul_is_associative(k, gx, uy);
    lemma_mul_is_associative(k, gy, ux);
    vstd::arithmetic::mul::lemma_mul_is_commutative(k, gx);
    vstd::arithmetic::mul::lemma_mul_is_commutative(k, gy);
    lemma_mul_is_associative(gx, k, uy);
    lemma_mul_is_associative(gy, k, ux);
}

/// For a vector `u` along `e`, the cross product of any `g` with `u`, times
/// the squared length of `e`, is the cross product of `g` with `e`, times the
/// dot product of `e` and `u`.
pub proof fn lemma_cross_along(gx: int, gy: int, ex: int, ey: int, ux: int, uy: int)
    requires
        ex * uy - ey * ux == 0,
    ensures
        (ex * ex + ey * ey) * (gx * uy - gy * ux) == (ex * ux + ey * uy) * (gx * ey - gy * ex),
        (ex * ex + ey * ey) * ux == (ex * ux + ey * uy) * ex,
        (ex * ex + ey * ey) * uy == (ex * ux + ey * uy) * ey,
{
    let q = ex * ex + ey * ey;
    let s = ex * ux + ey * uy;
    let c = ex * uy - ey * ux;
    lemma_decompose(ex, ey, ux, uy);
    assert(c * ey == 0 && c * ex == 0) by (nonlinear_arith)
        requires
            c == 0,
    ;
    assert(q * ux == s * ex);
    assert(q * uy == s * ey);
    lemma_weighted_cross(q, gx, gy, ux, uy);
    lemma_weighted_cross(s, gx, gy, ex, ey);
}

/// The cross product with a sum that holds the first vector is the cross
/// product with the rest.
pub proof fn lemma_cross_shift(gx: int, gy: int, ux: int, uy: int)
    by (nonlinear_arith)
    ensures
        gx * (uy + gy) - gy * (ux + gx) == gx * uy - gy * ux,
        gx * (uy - gy) - gy * (ux - gx) == gx * uy - gy * ux,
{
}


/// Of three vectors `a`, `b` and `c` of the plane, the cross product of the
/// first and the last is made up of the other two, each weighed by the dot
/// product of any `h` with the vector it leaves out.
pub proof fn lemma_three_vectors(
    ax: int,
    ay: int,
    bx: int,
    by: int,
    cx: int,
    cy: int,
    hx: int,
    hy: int,
)
    ensures
        (ax * cy - ay * cx) * (hx * bx + hy * by) == (ax * by - ay * bx) * (hx * cx + hy * cy) + (bx
            * cy - by * cx) * (hx * ax + hy * ay),
{
    let bc = bx * cy - by * cx;
    let ca = cx * ay - cy * ax;
    let ab = ax * by - ay * bx;
    lemma_triangle_weights(ax, ay, bx, by, cx, cy);
    lemma_weighted_dot3(bc, ca, ab, ax, ay, bx, by, cx, cy, hx, hy);
    let sx = bc * ax + ca * bx + ab * cx;
    let sy = bc * ay + ca * by + ab * cy;
    assert(sx * hx + sy * hy == 0) by (nonlinear_arith)
        requires
            sx == 0,
            sy == 0,
    ;
    assert(ax * hx + ay * hy == hx * ax + hy * ay) by (nonlinear_arith);
    assert(bx * hx + by * hy == hx * bx + hy * by) by (nonlinear_arith);
    assert(cx * hx + cy * hy == hx * cx + hy * cy) by (nonlinear_arith);
    assert(ca == -(ax * cy - ay * cx)) by (nonlinear_arith)
        requires
            ca == cx * ay - cy * ax,
    ;
    assert(ca * (hx * bx + hy * by) == -((ax * cy - ay * cx) * (hx * bx + hy * by)))
        by (nonlinear_arith)
        requires
            ca == -(ax * cy - ay * cx),
    ;
}


/// The squared length of the difference of two vectors with weights: of
/// `n * w - s * e`.
pub proof fn lemma_weighted_norm(n: int, wx: int, wy: int, s: int, ex: int, ey: int)
    ensures
        (n * wx - s * ex) * (n * wx - s * ex) + (n * wy - s * ey) * (n * wy - s * ey) == (n * n) * (
        wx * wx + wy * wy) - 2 * ((n * s) * (wx * ex + wy * ey)) + (s * s) * (ex * ex + ey * ey),
{
    lemma_binomial(n * wx, s * ex);
    lemma_binomial(n * wy, s * ey);
    lemma_square_of_product(n, wx);
    lemma_square_of_product(n, wy);
    lemma_square_of_product(s, ex);
    lemma_square_of_product(s, ey);
    lemma_cross_products(n, wx, s, ex);
    lemma_cross_products(n, wy, s, ey);
    assert((n * ex) * (s * wx) == (n * s) * (wx * ex)) by (nonlinear_arith);
    assert((n * ey) * (s * wy) == (n * s) * (wy * ey)) by (nonlinear_arith);
    lemma_mul_is_distributive_add(n * n, wx * wx, wy * wy);
    lemma_mul_is_distributive_add(s * s, ex * ex, ey * ey);
    lemma_mul_is_distributive_add(n * s, wx * ex, wy * ey);
}

/// The cross product of `n * w - s * e` with `e` is `n` times that of `w`
/// with `e`.
pub proof fn lemma_weighted_cross_with(n: int, wx: int, wy: int, s: int, ex: int, ey: int)
    ensures
        (n * wx - s * ex) * ey - (n * wy - s * ey) * ex == n * (wx * ey - wy * ex),
{
    vstd::arithmetic::mul::lemma_mul_is_distributive_sub_other_way(ey, n * wx, s * ex);
    vstd::arithmetic::mul::lemma_mul_is_distributive_sub_other_way(ex, n * wy, s * ey);
    lemma_mul_is_associative(n, wx, ey);
    lemma_mul_is_associative(n, wy, ex);
    lemma_mul_is_associative(s, ex, ey);
    lemma_mul_is_associative(s, ey, ex);
    vstd::arithmetic::mul::lemma_mul_is_commutative(ex, ey);
    vstd::arithmetic::mul::lemma_mul_is_distributive_sub(n, wx * ey, wy * ex);
}


} // verus!
