//! What holds of the collision queries whatever the shapes are.

use vstd::prelude::*;
use crate::algebra::{
    lemma_decompose, lemma_foot_x, lemma_foot_y, lemma_lagrange, lemma_square_of_product,
    lemma_triangle_weights,
    lemma_weighted_cross_with, lemma_weighted_dot, lemma_weighted_dot2, lemma_weighted_dot3,
    lemma_weighted_norm,
};
use crate::gjk::{attains, diff, holds_origin, respond, supports, Closest, GjkCache};
use crate::manifold::{
    clamp, clip, disc_hull_touch, disc_rect_touch, discs_touch, edge_length, face_scan, face_touch,
    flipped, frac_less, hull_pens, hulls_touch, lemma_touch_agrees, normal_dots, point_pens,
    point_reach, reach_length, rects_touch, seg_reach, touch, turned, Face, Reach,
};
use crate::convex::{has_hull, hull_of, lemma_hull_unique};
use crate::model::{
    apart, corners, disc_meets_hull, disc_meets_pill, disc_meets_rect, discs_meet, edge_normal,
    enclosed, has_area, hulls_meet, inside, overshoot,
    lemma_meets_symmetric, meets, near_segment, pill_meets_hull, rects_meet, segments_near,
    separates, side, Figure,
};
use crate::poly::{collinear, next_index};
use crate::ray::{ray_hit, Hit};
use crate::scalar::{
    floor_sqrt, lemma_floor_sqrt_exists, lemma_trunc_div_exact, trunc_div, UNIT,
};
use crate::shapes::{place_point, Transformation};
use crate::toi::{advance, Advance};
use crate::vec2::{dist_sq, lemma_unit_neg, orient, Point};

verus! {

/// The rotation by no angle leaves every vector where it is, so a shape
/// under the transformation that has this rotation and no position is where
/// it is without any.
pub proof fn law_identity_moves_nothing(x: Transformation, v: Point)
    requires
        x.r.c == UNIT,
        x.r.s == 0,
        x.p.x == 0,
        x.p.y == 0,
    ensures
        place_point(Some(x), v) == place_point(None, v),
{
    lemma_trunc_div_exact(v.x, UNIT as int);
    lemma_trunc_div_exact(v.y, UNIT as int);
    assert(x.r.c * v.x - x.r.s * v.y == v.x * UNIT) by (nonlinear_arith)
        requires
            x.r.c == UNIT,
            x.r.s == 0,
    ;
    assert(x.r.s * v.x + x.r.c * v.y == v.y * UNIT) by (nonlinear_arith)
        requires
            x.r.c == UNIT,
            x.r.s == 0,
    ;
}

/// Points that lie on one line have no convex hull: no polygon is built from
/// them.
pub proof fn law_line_has_no_hull(s: Seq<Point>)
    requires
        collinear(s),
    ensures
        !has_hull(s),
{
    if has_hull(s) {
        let h = choose|h: Seq<Point>| hull_of(h, s);
        assert(s.contains(h[0]) && s.contains(h[1]) && s.contains(h[2]));
        let a = choose|k: int| 0 <= k < s.len() && s[k] == h[0];
        let b = choose|k: int| 0 <= k < s.len() && s[k] == h[1];
        let c = choose|k: int| 0 <= k < s.len() && s[k] == h[2];
        assert(orient(s[a], s[b], s[c]) == 0);
        assert(orient(h[0], h[next_index(0, h.len() as int)], h[2]) > 0);
    }
}

/// Points have one convex hull at most, so the polygon that is built from
/// points is the only polygon that is their hull.
pub proof fn law_one_hull(h1: Seq<Point>, h2: Seq<Point>, s: Seq<Point>)
    requires
        hull_of(h1, s),
        hull_of(h2, s),
    ensures
        h1 == h2,
{
    lemma_hull_unique(h1, h2, s);
}

/// Whether two shapes collide does not depend on the order in which they are
/// given.
pub proof fn law_collision_symmetric(f: Figure, g: Figure)
    ensures
        meets(f, g) == meets(g, f),
{
    lemma_meets_symmetric(f, g);
}

/// Two shapes have a point of contact exactly where they collide, in either
/// order, and never more than two.
pub proof fn law_manifold_agrees(f: Figure, g: Figure)
    ensures
        touch(f, g).count > 0 <==> meets(f, g),
        touch(g, f).count > 0 <==> meets(f, g),
        0 <= touch(f, g).count <= 2,
{
    lemma_touch_agrees(f, g);
    lemma_touch_agrees(g, f);
    lemma_meets_symmetric(f, g);
}

/// The two shapes are of different kinds, and not a rectangle and a polygon.
pub open spec fn of_two_kinds(f: Figure, g: Figure) -> bool {
    match (f, g) {
        (Figure::Disc { .. }, Figure::Disc { .. }) => false,
        (Figure::Rect { .. }, Figure::Rect { .. }) => false,
        (Figure::Pill { .. }, Figure::Pill { .. }) => false,
        (Figure::Hull { .. }, Figure::Hull { .. }) => false,
        (Figure::Rect { .. }, Figure::Hull { .. }) => false,
        (Figure::Hull { .. }, Figure::Rect { .. }) => false,
        _ => true,
    }
}

/// For two shapes of different kinds, other than a box and a polygon, the
/// manifold in the other order has the same points of contact and depths, and
/// the opposite normal.
pub proof fn law_manifold_swapped(f: Figure, g: Figure)
    requires
        of_two_kinds(f, g),
    ensures
        touch(g, f) == flipped(touch(f, g)),
{
    let t = touch(f, g);
    let w = touch(g, f);
    assert(t.n.neg().neg() == t.n);
    assert(w.n.neg().neg() == w.n);
}

/// For two circles on different centres, the manifold in the other order has
/// the same depth and the opposite normal.
pub proof fn law_circles_swapped(c1: Point, r1: int, c2: Point, r2: int)
    requires
        c1 != c2,
    ensures
        discs_touch(c2, r2, c1, r1).count == discs_touch(c1, r1, c2, r2).count,
        discs_touch(c2, r2, c1, r1).d0 == discs_touch(c1, r1, c2, r2).d0,
        discs_touch(c2, r2, c1, r1).n == discs_touch(c1, r1, c2, r2).n.neg(),
{
    let d = c2.minus(c1);
    let e = c1.minus(c2);
    assert(e == d.neg());
    lemma_unit_neg(d);
    assert(e.norm_sq() == d.norm_sq()) by (nonlinear_arith)
        requires
            e == d.neg(),
    ;
    lemma_meets_symmetric(Figure::Disc { c: c1, r: r1 }, Figure::Disc { c: c2, r: r2 });
    assert(r1 + r2 == r2 + r1);
}

/// For two boxes whose centres differ in both coordinates, the manifold in
/// the other order has the same depth and the opposite normal.
pub proof fn law_boxes_swapped(lo1: Point, hi1: Point, lo2: Point, hi2: Point)
    requires
        lo1.x + hi1.x != lo2.x + hi2.x,
        lo1.y + hi1.y != lo2.y + hi2.y,
    ensures
        rects_touch(lo2, hi2, lo1, hi1).count == rects_touch(lo1, hi1, lo2, hi2).count,
        rects_touch(lo2, hi2, lo1, hi1).d0 == rects_touch(lo1, hi1, lo2, hi2).d0,
        rects_touch(lo2, hi2, lo1, hi1).n == rects_touch(lo1, hi1, lo2, hi2).n.neg(),
{
}

/// A ray that reaches a shape reaches it at the same distance and with the
/// same normal however much longer it is made, and a ray that ends before
/// that distance reaches nothing.
pub proof fn law_ray_monotone(p: Point, d: Point, t1: int, t2: int, f: Figure, h: Hit)
    requires
        ray_hit(p, d, t1, f) == Some(h),
    ensures
        t2 >= h.t ==> ray_hit(p, d, t2, f) == Some(h),
        t2 < h.t ==> ray_hit(p, d, t2, f) is None,
{
}

/// The first advance of two shapes that are `gap` apart and close in by
/// `speed` in the whole step, both positive. The shapes are advanced to the
/// part `gap / speed` of the step, rounded down to a step of time, or by one
/// step of time where that would be none; where that lies beyond the end of
/// the step there is no impact.
pub proof fn law_first_advance(gap: int, speed: int)
    requires
        gap > 0,
        speed > 0,
    ensures
        gap * UNIT >= (UNIT + 1) * speed ==> advance(0, gap, speed * UNIT) == Advance::NoImpact,
        gap * UNIT < (UNIT + 1) * speed ==> (advance(0, gap, speed * UNIT) matches Advance::Continue(
            t,
        ) && ((t == 1 && gap * UNIT < speed) || (t * speed <= gap * UNIT < (t + 1) * speed))),
{
    let dt = (gap * UNIT * UNIT) / (speed * UNIT);
    assert(dt == (gap * UNIT) / speed) by (nonlinear_arith)
        requires
            dt == (gap * UNIT * UNIT) / (speed * UNIT),
            speed > 0,
            UNIT == 65536,
    ;
    vstd::arithmetic::div_mod::lemma_fundamental_div_mod(gap * UNIT, speed);
    vstd::arithmetic::div_mod::lemma_mod_bound(gap * UNIT, speed);
    assert(speed * dt == dt * speed) by (nonlinear_arith);
    assert((dt + 1) * speed == dt * speed + speed) by (nonlinear_arith);
    assert(dt * speed <= gap * UNIT < (dt + 1) * speed);
    assert(dt >= 0) by (nonlinear_arith)
        requires
            gap * UNIT < (dt + 1) * speed,
            gap > 0,
            speed > 0,
            UNIT == 65536,
    ;
    if gap * UNIT >= (UNIT + 1) * speed {
        assert(dt > UNIT) by (nonlinear_arith)
            requires
                gap * UNIT < (dt + 1) * speed,
                gap * UNIT >= (UNIT + 1) * speed,
                speed > 0,
        ;
    } else {
        assert(dt <= UNIT) by (nonlinear_arith)
            requires
                dt * speed <= gap * UNIT,
                gap * UNIT < (UNIT + 1) * speed,
                speed > 0,
        ;
        if dt == 0 {
            assert(dt * speed == 0) by (nonlinear_arith)
                requires
                    dt == 0,
            ;
        }
        let next = if dt == 0 {
            1
        } else {
            dt
        };
        assert(advance(0, gap, speed * UNIT) == Advance::Continue(next as i64));
    }
}

/// Where a point, a segment or a triangle that holds the origin lies behind
/// the line `x . d == m` with all its corners, the origin does: `m` is not
/// negative.
proof fn lemma_origin_not_behind(ws: Seq<Point>, d: Point, m: int)
    requires
        holds_origin(ws),
        forall|k: int| 0 <= k < ws.len() ==> (#[trigger] ws[k]).dot(d) <= m,
    ensures
        m >= 0,
{
    if ws.len() == 1 {
        assert(ws[0].dot(d) == 0) by (nonlinear_arith)
            requires
                ws[0].x == 0,
                ws[0].y == 0,
                ws[0].dot(d) == ws[0].x * d.x + ws[0].y * d.y,
        ;
        assert(ws[0].dot(d) <= m);
    } else if ws.len() == 2 {
        let w0 = ws[0];
        let w1 = ws[1];
        assert(w0.dot(d) <= m && w1.dot(d) <= m);
        lemma_segment_holds_origin(w0.x, w0.y, w1.x, w1.y, d.x, d.y, m);
    } else {
        let w0 = ws[0];
        let w1 = ws[1];
        let w2 = ws[2];
        assert(w0.dot(d) <= m && w1.dot(d) <= m && w2.dot(d) <= m);
        lemma_triangle_holds_origin(w0.x, w0.y, w1.x, w1.y, w2.x, w2.y, d.x, d.y, m);
    }
}

/// The case of a segment in `lemma_origin_not_behind`, in coordinates.
proof fn lemma_segment_holds_origin(x0: int, y0: int, x1: int, y1: int, dx: int, dy: int, m: int)
    requires
        x0 * (y1 - y0) - y0 * (x1 - x0) == 0,
        0 < -(x0 * (x1 - x0) + y0 * (y1 - y0)) < (x1 - x0) * (x1 - x0) + (y1 - y0) * (y1 - y0),
        x0 * dx + y0 * dy <= m,
        x1 * dx + y1 * dy <= m,
    ensures
        m >= 0,
{
    let ex = x1 - x0;
    let ey = y1 - y0;
    let c = x0 * ey - y0 * ex;
    let t = -(x0 * ex + y0 * ey);
    let ee = ex * ex + ey * ey;
    let l0 = ee - t;
    let p0 = x0 * dx + y0 * dy;
    let p1 = x1 * dx + y1 * dy;
    let sx = l0 * x0 + t * x1;
    let sy = l0 * y0 + t * y1;
    lemma_foot_x(x0, y0, x1, y1);
    lemma_foot_y(x0, y0, x1, y1);
    assert(sx == ey * c);
    assert(sy == -(ex * c));
    assert(ey * c == 0 && ex * c == 0) by (nonlinear_arith)
        requires
            c == 0,
    ;
    lemma_weighted_dot2(l0, t, x0, y0, x1, y1, dx, dy);
    assert(sx * dx + sy * dy == 0) by (nonlinear_arith)
        requires
            sx == 0,
            sy == 0,
    ;
    if m < 0 {
        assert(l0 * p0 + t * p1 < 0) by (nonlinear_arith)
            requires
                l0 > 0,
                t > 0,
                p0 <= m,
                p1 <= m,
                m < 0,
        ;
    }
}

/// The case of a triangle in `lemma_origin_not_behind`, in coordinates.
proof fn lemma_triangle_holds_origin(
    x0: int,
    y0: int,
    x1: int,
    y1: int,
    x2: int,
    y2: int,
    dx: int,
    dy: int,
    m: int,
)
    requires
        ({
            let c01 = x0 * y1 - y0 * x1;
            let c12 = x1 * y2 - y1 * x2;
            let c20 = x2 * y0 - y2 * x0;
            c01 + c12 + c20 != 0 && ((c01 >= 0 && c12 >= 0 && c20 >= 0) || (c01 <= 0 && c12 <= 0
                && c20 <= 0))
        }),
        x0 * dx + y0 * dy <= m,
        x1 * dx + y1 * dy <= m,
        x2 * dx + y2 * dy <= m,
    ensures
        m >= 0,
{
    let c01 = x0 * y1 - y0 * x1;
    let c12 = x1 * y2 - y1 * x2;
    let c20 = x2 * y0 - y2 * x0;
    let p0 = x0 * dx + y0 * dy;
    let p1 = x1 * dx + y1 * dy;
    let p2 = x2 * dx + y2 * dy;
    let sx = c12 * x0 + c20 * x1 + c01 * x2;
    let sy = c12 * y0 + c20 * y1 + c01 * y2;
    lemma_triangle_weights(x0, y0, x1, y1, x2, y2);
    assert(sx == 0 && sy == 0);
    lemma_weighted_dot3(c12, c20, c01, x0, y0, x1, y1, x2, y2, dx, dy);
    assert(sx * dx + sy * dy == 0) by (nonlinear_arith)
        requires
            sx == 0,
            sy == 0,
    ;
    if m >= 0 {
    } else if c01 >= 0 && c12 >= 0 && c20 >= 0 {
        assert(c12 * p0 + c20 * p1 + c01 * p2 < 0) by (nonlinear_arith)
            requires
                c01 >= 0,
                c12 >= 0,
                c20 >= 0,
                c01 + c12 + c20 > 0,
                p0 <= m,
                p1 <= m,
                p2 <= m,
                m < 0,
        ;
    } else {
        assert(c12 * p0 + c20 * p1 + c01 * p2 > 0) by (nonlinear_arith)
            requires
                c01 <= 0,
                c12 <= 0,
                c20 <= 0,
                c01 + c12 + c20 < 0,
                p0 <= m,
                p1 <= m,
                p2 <= m,
                m < 0,
        ;
    }
}

/// Where no point of a set lies beyond the line `x . d1 == m1`, the nearest
/// point to the origin of one or two of its points, which lies on the line
/// `x . d2 == m2`, does not either: `m2 * (d1 . d2) <= m1 * |d2|^2`.
proof fn lemma_nearest_behind(ws: Seq<Point>, d2: Point, m2: int, d1: Point, m1: int)
    requires
        attains(ws, d2, m2),
        forall|k: int| 0 <= k < ws.len() ==> (#[trigger] ws[k]).dot(d1) <= m1,
    ensures
        m2 * d1.dot(d2) <= m1 * d2.norm_sq(),
{
    if ws.len() == 1 {
        let w = ws[0];
        assert(w.dot(d1) <= m1);
        assert(m2 * d1.dot(d2) <= m1 * d2.norm_sq()) by (nonlinear_arith)
            requires
                d2.x == -w.x,
                d2.y == -w.y,
                m2 == -(w.x * w.x + w.y * w.y),
                w.x * d1.x + w.y * d1.y <= m1,
                d1.dot(d2) == d1.x * d2.x + d1.y * d2.y,
                d2.norm_sq() == d2.x * d2.x + d2.y * d2.y,
        ;
    } else {
        let w0 = ws[0];
        let w1 = ws[1];
        assert(w0.dot(d1) <= m1);
        assert(w1.dot(d1) <= m1);
        lemma_foot_behind(w0.x, w0.y, w1.x, w1.y, d2.x, d2.y, m2, d1.x, d1.y, m1);
    }
}

/// The case of a segment in `lemma_nearest_behind`, in coordinates.
proof fn lemma_foot_behind(
    x0: int,
    y0: int,
    x1: int,
    y1: int,
    ux: int,
    uy: int,
    m2: int,
    dx: int,
    dy: int,
    m1: int,
)
    requires
        ({
            let ex = x1 - x0;
            let ey = y1 - y0;
            let c = x0 * ey - y0 * ex;
            &&& 0 < -(x0 * ex + y0 * ey) < ex * ex + ey * ey
            &&& (c > 0 && ux == -ey && uy == ex && m2 == -c) || (c < 0 && ux == ey && uy == -ex
                && m2 == c)
        }),
        x0 * dx + y0 * dy <= m1,
        x1 * dx + y1 * dy <= m1,
    ensures
        m2 * (dx * ux + dy * uy) <= m1 * (ux * ux + uy * uy),
{
    let ex = x1 - x0;
    let ey = y1 - y0;
    let c = x0 * ey - y0 * ex;
    let t = -(x0 * ex + y0 * ey);
    let ee = ex * ex + ey * ey;
    let l0 = ee - t;
    let p0 = x0 * dx + y0 * dy;
    let p1 = x1 * dx + y1 * dy;
    let sx = l0 * x0 + t * x1;
    let sy = l0 * y0 + t * y1;
    lemma_foot_x(x0, y0, x1, y1);
    lemma_foot_y(x0, y0, x1, y1);
    assert(sx == ey * c);
    assert(sy == -(ex * c));
    assert(sx == m2 * ux && sy == m2 * uy) by (nonlinear_arith)
        requires
            sx == ey * c,
            sy == -(ex * c),
            (ux == -ey && uy == ex && m2 == -c) || (ux == ey && uy == -ex && m2 == c),
    ;
    assert(ux * ux + uy * uy == ee) by (nonlinear_arith)
        requires
            (ux == -ey && uy == ex) || (ux == ey && uy == -ex),
            ee == ex * ex + ey * ey,
    ;
    lemma_weighted_dot2(l0, t, x0, y0, x1, y1, dx, dy);
    assert(l0 * p0 + t * p1 == sx * dx + sy * dy);
    lemma_weighted_dot(m2, ux, uy, dx, dy);
    assert(m2 * (ux * dx + uy * dy) == sx * dx + sy * dy);
    assert(ux * dx + uy * dy == dx * ux + dy * uy) by (nonlinear_arith);
    assert(l0 * p0 + t * p1 <= m1 * ee) by (nonlinear_arith)
        requires
            l0 > 0,
            t > 0,
            l0 + t == ee,
            p0 <= m1,
            p1 <= m1,
    ;
}

/// The square of a dot product is at most the product of the squared
/// lengths.
proof fn lemma_dot_bound(ax: int, ay: int, bx: int, by: int)
    ensures
        (ax * bx + ay * by) * (ax * bx + ay * by) <= (ax * ax + ay * ay) * (bx * bx + by * by),
{
    lemma_lagrange(ax, ay, bx, by);
    let c = ax * by - ay * bx;
    assert(c * c >= 0) by (nonlinear_arith);
}

/// Of two lines that each keep the nearest point of the other behind them,
/// the second is not farther from the origin than the first.
proof fn lemma_not_farther(m1: int, q1: int, m2: int, q2: int, g: int)
    requires
        m1 < 0,
        m2 < 0,
        q1 > 0,
        q2 > 0,
        g * g <= q1 * q2,
        m2 * g <= m1 * q2,
    ensures
        m1 * m1 * q2 <= m2 * m2 * q1,
{
    let a = -m1;
    let b = -m2;
    assert(b * g >= a * q2) by (nonlinear_arith)
        requires
            m2 * g <= m1 * q2,
            a == -m1,
            b == -m2,
    ;
    assert(a * q2 > 0) by (nonlinear_arith)
        requires
            a > 0,
            q2 > 0,
    ;
    assert(g > 0) by (nonlinear_arith)
        requires
            b * g >= a * q2,
            a * q2 > 0,
            b > 0,
    ;
    let lhs = a * q2;
    let rhs = b * g;
    assert(lhs * lhs <= rhs * rhs) by (nonlinear_arith)
        requires
            0 < lhs <= rhs,
    ;
    assert(rhs * rhs == b * b * (g * g)) by (nonlinear_arith)
        requires
            rhs == b * g,
    ;
    assert(b * b * (g * g) <= b * b * (q1 * q2)) by (nonlinear_arith)
        requires
            g * g <= q1 * q2,
            b * b >= 0,
    ;
    assert(lhs * lhs == (a * a * q2) * q2) by (nonlinear_arith)
        requires
            lhs == a * q2,
    ;
    assert(b * b * (q1 * q2) == (b * b * q1) * q2) by (nonlinear_arith);
    assert(a * a * q2 <= b * b * q1) by (nonlinear_arith)
        requires
            (a * a * q2) * q2 <= (b * b * q1) * q2,
            q2 > 0,
    ;
    assert(a * a == m1 * m1 && b * b == m2 * m2) by (nonlinear_arith)
        requires
            a == -m1,
            b == -m2,
    ;
}

/// Fractions of the same value have the same whole part.
proof fn lemma_same_quotient(a: int, p: int, c: int, q: int)
    requires
        p > 0,
        q > 0,
        a >= 0,
        c >= 0,
        a * q == c * p,
    ensures
        a / p == c / q,
{
    let k = a / p;
    vstd::arithmetic::div_mod::lemma_fundamental_div_mod(a, p);
    vstd::arithmetic::div_mod::lemma_mod_bound(a, p);
    assert(p * k <= a < p * k + p);
    assert(k * q <= c < k * q + q) by (nonlinear_arith)
        requires
            p * k <= a < p * k + p,
            a * q == c * p,
            p > 0,
            q > 0,
    ;
    vstd::arithmetic::div_mod::lemma_fundamental_div_mod_converse(c, q, k, c - k * q);
}

/// The points of the Minkowski difference that a simplex stands for lie
/// behind every line that all of its vertices lie behind.
proof fn lemma_simplex_behind(s: GjkCache, a: Seq<Point>, b: Seq<Point>, d: Point, m: int)
    requires
        s.fits(a.len() as int, b.len() as int),
        supports(a, b, d, m),
    ensures
        forall|k: int|
            0 <= k < s.points(a, b).len() ==> (#[trigger] s.points(a, b)[k]).dot(d) <= m,
{
    assert forall|k: int| 0 <= k < s.points(a, b).len() implies (#[trigger] s.points(a, b)[k]).dot(
        d,
    ) <= m by {
        assert(forall|j: int|
            0 <= j < s.count ==> (#[trigger] s.ia[j]) < a.len() && s.ib[j] < b.len());
        assert(s.points(a, b)[k] == diff(a, b, s.ia[k] as int, s.ib[k] as int));
    }
}

/// Two queries on the same two shapes that both came to their end agree on
/// whether the shapes share a point and on their distance, whatever simplex
/// each of them started from: the cache changes the number of refinements,
/// never the converged answer.
pub proof fn law_cache_invariance(x: Closest, y: Closest, a: Seq<Point>, b: Seq<Point>)
    requires
        x.describes(a, b),
        y.describes(a, b),
        x.exact,
        y.exact,
    ensures
        x.hit == y.hit,
        x.span() == y.span(),
        forall|ra: int, rb: int, use_radius: bool|
            #![all_triggers]
            respond(x, a, ra, b, rb, use_radius).distance == respond(
                y,
                a,
                ra,
                b,
                rb,
                use_radius,
            ).distance,
{
    let wx = x.simplex.points(a, b);
    let wy = y.simplex.points(a, b);
    if x.hit && !y.hit {
        lemma_simplex_behind(x.simplex, a, b, y.d@, y.m as int);
        lemma_origin_not_behind(wx, y.d@, y.m as int);
        lemma_attained(wy, y.d@, y.m as int);
    }
    if y.hit && !x.hit {
        lemma_simplex_behind(y.simplex, a, b, x.d@, x.m as int);
        lemma_origin_not_behind(wy, x.d@, x.m as int);
        lemma_attained(wx, x.d@, x.m as int);
    }
    if !x.hit && !y.hit {
        let d1 = x.d@;
        let d2 = y.d@;
        let m1 = x.m as int;
        let m2 = y.m as int;
        lemma_simplex_behind(y.simplex, a, b, d1, m1);
        lemma_simplex_behind(x.simplex, a, b, d2, m2);
        lemma_nearest_behind(wy, d2, m2, d1, m1);
        lemma_nearest_behind(wx, d1, m1, d2, m2);
        lemma_attained(wx, d1, m1);
        lemma_attained(wy, d2, m2);
        let g = d1.dot(d2);
        lemma_dot_bound(d1.x, d1.y, d2.x, d2.y);
        assert(d2.dot(d1) == g) by (nonlinear_arith)
            requires
                g == d1.x * d2.x + d1.y * d2.y,
                d2.dot(d1) == d2.x * d1.x + d2.y * d1.y,
        ;
        let q1 = d1.norm_sq();
        let q2 = d2.norm_sq();
        assert(g * g <= q2 * q1) by (nonlinear_arith)
            requires
                g * g <= q1 * q2,
        ;
        lemma_not_farther(m1, q1, m2, q2, g);
        lemma_not_farther(m2, q2, m1, q1, g);
        assert(m1 * m1 >= 0 && m2 * m2 >= 0) by (nonlinear_arith);
        assert((m1 * m1) * q2 == (m2 * m2) * q1) by (nonlinear_arith)
            requires
                m1 * m1 * q2 <= m2 * m2 * q1,
                m2 * m2 * q1 <= m1 * m1 * q2,
        ;
        lemma_same_quotient(m1 * m1, q1, m2 * m2, q2);
    }
}

/// The direction of the nearest point of one or two points that do not hold
/// the origin is not the zero vector, and the line through the point does not
/// pass the origin.
proof fn lemma_attained(ws: Seq<Point>, d: Point, m: int)
    requires
        attains(ws, d, m),
    ensures
        d.norm_sq() > 0,
        m < 0,
{
    if ws.len() == 1 {
        assert(d.norm_sq() == ws[0].norm_sq()) by (nonlinear_arith)
            requires
                d == ws[0].neg(),
        ;
    } else {
        let e = ws[1].minus(ws[0]);
        assert(d.norm_sq() == e.norm_sq()) by (nonlinear_arith)
            requires
                d == e.perp().neg() || d == e.perp(),
        ;
    }
}


/// Of two reaches beyond an edge, each measured against the length of its
/// edge, at most one is the lesser.
proof fn lemma_frac_less_one_way(a: int, p: int, b: int, q: int)
    requires
        frac_less(a, p, b, q),
    ensures
        !frac_less(b, q, a, p),
{
}

/// For two polygons, or a box and a polygon, that part along an edge of one of
/// them beyond which the other reaches less far than beyond any edge of its
/// own, the manifold in the other order has the same points of contact and
/// depths, and the opposite normal. (Where the least reach is the same beyond
/// an edge of each, the edge of the first polygon is taken in either order.)
pub proof fn law_polygons_swapped(h: Seq<Point>, g: Seq<Point>)
    requires
        ({
            let fh = face_scan(h, hull_pens(h, g), h.len() as int);
            let fg = face_scan(g, hull_pens(g, h), g.len() as int);
            fh.index >= 0 && fg.index >= 0 && (frac_less(fh.pen, fh.len_sq, fg.pen, fg.len_sq)
                || frac_less(fg.pen, fg.len_sq, fh.pen, fh.len_sq))
        }),
    ensures
        hulls_touch(g, h) == flipped(hulls_touch(h, g)),
{
    let fh = face_scan(h, hull_pens(h, g), h.len() as int);
    let fg = face_scan(g, hull_pens(g, h), g.len() as int);
    if frac_less(fh.pen, fh.len_sq, fg.pen, fg.len_sq) {
        lemma_frac_less_one_way(fh.pen, fh.len_sq, fg.pen, fg.len_sq);
    } else {
        lemma_frac_less_one_way(fg.pen, fg.len_sq, fh.pen, fh.len_sq);
    }
    let t = hulls_touch(h, g);
    let w = hulls_touch(g, h);
    assert(t.n.neg().neg() == t.n);
    assert(w.n.neg().neg() == w.n);
    assert(hulls_meet(h, g) == hulls_meet(g, h));
}

/// The edge that a search for the edge of least reach finds has a length, and
/// the reach that the search reports is the reach beyond that edge.
proof fn lemma_face_found(v: Seq<Point>, pens: Seq<int>, k: int)
    requires
        0 <= k <= v.len(),
    ensures
        ({
            let f = face_scan(v, pens, k);
            f.index >= 0 ==> f.index < k && f.len_sq > 0 && f.len_sq == edge_normal(
                v,
                f.index,
            ).norm_sq() && f.pen == pens[f.index]
        }),
    decreases k,
{
    if k > 0 {
        lemma_face_found(v, pens, k - 1);
    }
}

/// The whole part of a quotient of a number that is not negative by a
/// positive number is not negative.
proof fn lemma_trunc_div_sign(a: int, b: int)
    by (nonlinear_arith)
    requires
        a >= 0,
        b > 0,
    ensures
        trunc_div(a, b) >= 0,
{
}

/// The length of an edge that has a length is positive, also when rounded
/// down.
proof fn lemma_length_positive(n: int)
    requires
        n > 0,
    ensures
        floor_sqrt(n) >= 1,
{
    lemma_floor_sqrt_exists(n);
    let r = floor_sqrt(n);
    if r < 1 {
        assert((r + 1) * (r + 1) == 1);
    }
}

/// The squared distance of the nearest points of a point and a segment is a
/// fraction of a number that is not negative and a positive number.
proof fn lemma_point_reach_sound(p: Point, a: Point, b: Point)
    ensures
        point_reach(p, a, b).num >= 0,
        point_reach(p, a, b).den >= 1,
{
    let e = b.minus(a);
    let w = p.minus(a);
    let c = e.cross(w);
    assert(c * c >= 0) by (nonlinear_arith);
    assert(a.minus(p).norm_sq() >= 0) by (nonlinear_arith)
        requires
            a.minus(p).norm_sq() == a.minus(p).x * a.minus(p).x + a.minus(p).y * a.minus(p).y,
    ;
    assert(b.minus(p).norm_sq() >= 0) by (nonlinear_arith)
        requires
            b.minus(p).norm_sq() == b.minus(p).x * b.minus(p).x + b.minus(p).y * b.minus(p).y,
    ;
}

/// The distance of nearest points, rounded down, is not negative.
proof fn lemma_length_not_negative(r: Reach)
    requires
        r.num >= 0,
        r.den >= 1,
    ensures
        reach_length(r) >= 0,
{
    assert(r.num / r.den >= 0) by (nonlinear_arith)
        requires
            r.num >= 0,
            r.den >= 1,
    ;
    lemma_floor_sqrt_exists(r.num / r.den);
}

/// The figure has a radius that is not negative, and, if it is a rectangle,
/// corners in their order.
pub open spec fn sound_figure(f: Figure) -> bool {
    match f {
        Figure::Disc { c, r } => r >= 0,
        Figure::Rect { lo, hi } => lo.x <= hi.x && lo.y <= hi.y,
        Figure::Pill { a, b, r } => r >= 0,
        Figure::Hull { v } => true,
    }
}

/// The depths of a manifold are not negative.
pub proof fn law_depths_not_negative(f: Figure, g: Figure)
    requires
        sound_figure(f),
        sound_figure(g),
    ensures
        touch(f, g).d0 >= 0,
        touch(f, g).d1 >= 0,
{
    match (f, g) {
        (Figure::Disc { c, r }, Figure::Rect { lo, hi }) => {
            lemma_disc_rect_depth(c, r, lo, hi);
        },
        (Figure::Rect { lo, hi }, Figure::Disc { c, r }) => {
            lemma_disc_rect_depth(c, r, lo, hi);
        },
        (Figure::Disc { c, r }, Figure::Hull { v }) => {
            lemma_disc_hull_depth(c, r, v);
        },
        (Figure::Hull { v }, Figure::Disc { c, r }) => {
            lemma_disc_hull_depth(c, r, v);
        },
        (Figure::Pill { a: a1, b: b1, r: r1 }, Figure::Pill { a: a2, b: b2, r: r2 }) => {
            lemma_point_reach_sound(a1, a2, b2);
            lemma_point_reach_sound(b1, a2, b2);
            lemma_point_reach_sound(a2, a1, b1);
            lemma_point_reach_sound(b2, a1, b1);
            lemma_length_not_negative(seg_reach(a1, b1, a2, b2));
        },
        (Figure::Rect { lo, hi }, Figure::Hull { v }) => {
            lemma_hulls_depth(corners(lo, hi), v);
        },
        (Figure::Hull { v }, Figure::Rect { lo, hi }) => {
            lemma_hulls_depth(v, corners(lo, hi));
        },
        (Figure::Hull { v: h }, Figure::Hull { v: k }) => {
            lemma_hulls_depth(h, k);
        },
        _ => {},
    }
}

/// The depth of the contact of a disc and a rectangle is not negative.
proof fn lemma_disc_rect_depth(c: Point, r: int, lo: Point, hi: Point)
    requires
        r >= 0,
        lo.x <= hi.x,
        lo.y <= hi.y,
    ensures
        disc_rect_touch(c, r, lo, hi).d0 >= 0,
        disc_rect_touch(c, r, lo, hi).d1 >= 0,
{
}

/// The depth of the contact of a disc and a polygon is not negative.
proof fn lemma_disc_hull_depth(c: Point, r: int, v: Seq<Point>)
    requires
        r >= 0,
    ensures
        disc_hull_touch(c, r, v).d0 >= 0,
        disc_hull_touch(c, r, v).d1 >= 0,
{
    let f = face_scan(v, point_pens(v, c), v.len() as int);
    lemma_face_found(v, point_pens(v, c), v.len() as int);
    if disc_meets_hull(c, r, v) && inside(v, c) && f.index >= 0 {
        assert(side(v, f.index, c) >= 0);
        lemma_length_positive(f.len_sq);
        lemma_trunc_div_sign(f.pen, edge_length(v, f.index));
    }
}

/// The depths of the contact of a polygon at one of its edges are not
/// negative.
proof fn lemma_face_depth(h: Seq<Point>, f: Face, g: Seq<Point>)
    requires
        f.index >= 0,
        f.len_sq > 0,
        f.len_sq == edge_normal(h, f.index).norm_sq(),
    ensures
        face_touch(h, f, g).d0 >= 0,
        face_touch(h, f, g).d1 >= 0,
{
    let i = f.index;
    let len = edge_length(h, i);
    lemma_length_positive(f.len_sq);
    let k0 = face_scan(g, normal_dots(g, edge_normal(h, i)), g.len() as int).index;
    let k = if k0 < 0 {
        0
    } else {
        k0
    };
    match clip(g[k], g[next_index(k, g.len() as int)], h[i], h[next_index(i, h.len() as int)]) {
        None => {},
        Some(q) => {
            let s0 = side(h, i, q.0);
            let s1 = side(h, i, q.1);
            if s0 >= 0 {
                lemma_trunc_div_sign(s0, len);
            }
            if s1 >= 0 {
                lemma_trunc_div_sign(s1, len);
            }
        },
    }
}

/// The depths of the contact of two polygons are not negative.
proof fn lemma_hulls_depth(h: Seq<Point>, g: Seq<Point>)
    ensures
        hulls_touch(h, g).d0 >= 0,
        hulls_touch(h, g).d1 >= 0,
{
    let fh = face_scan(h, hull_pens(h, g), h.len() as int);
    let fg = face_scan(g, hull_pens(g, h), g.len() as int);
    lemma_face_found(h, hull_pens(h, g), h.len() as int);
    lemma_face_found(g, hull_pens(g, h), g.len() as int);
    if fh.index >= 0 {
        lemma_face_depth(h, fh, g);
    }
    if fg.index >= 0 {
        lemma_face_depth(g, fg, h);
    }
}


/// A capsule whose segment has no length collides with a circle as the circle
/// of its radius around its one end does.
pub proof fn law_capsule_of_a_point(c: Point, r: int, a: Point, rp: int)
    ensures
        disc_meets_pill(c, r, a, a, rp) == discs_meet(c, r, a, rp),
{
    let e = a.minus(a);
    let w = c.minus(a);
    assert(w.dot(e) == 0) by (nonlinear_arith)
        requires
            e.x == 0,
            e.y == 0,
            w.dot(e) == w.x * e.x + w.y * e.y,
    ;
}

/// On which side of each edge of a rectangle a point lies: for a rectangle of
/// positive width and height, inside the bottom edge where it lies above it,
/// and so on round the rectangle.
proof fn lemma_sides_of_box(lo: Point, hi: Point, q: Point)
    requires
        lo.x < hi.x,
        lo.y < hi.y,
    ensures
        side(corners(lo, hi), 0, q) < 0 <==> q.y < lo.y,
        side(corners(lo, hi), 1, q) < 0 <==> q.x > hi.x,
        side(corners(lo, hi), 2, q) < 0 <==> q.y > hi.y,
        side(corners(lo, hi), 3, q) < 0 <==> q.x < lo.x,
{
    let h = corners(lo, hi);
    let w = hi.x - lo.x;
    let t = hi.y - lo.y;
    assert(next_index(0, 4) == 1 && next_index(1, 4) == 2 && next_index(2, 4) == 3 && next_index(
        3,
        4,
    ) == 0);
    assert(side(h, 0, q) == w * (q.y - lo.y)) by (nonlinear_arith)
        requires
            side(h, 0, q) == (hi.x - lo.x) * (q.y - lo.y) - (lo.y - lo.y) * (q.x - lo.x),
            w == hi.x - lo.x,
    ;
    assert(side(h, 1, q) == t * (hi.x - q.x)) by (nonlinear_arith)
        requires
            side(h, 1, q) == (hi.x - hi.x) * (q.y - lo.y) - (hi.y - lo.y) * (q.x - hi.x),
            t == hi.y - lo.y,
    ;
    assert(side(h, 2, q) == w * (hi.y - q.y)) by (nonlinear_arith)
        requires
            side(h, 2, q) == (lo.x - hi.x) * (q.y - hi.y) - (hi.y - hi.y) * (q.x - hi.x),
            w == hi.x - lo.x,
    ;
    assert(side(h, 3, q) == t * (q.x - lo.x)) by (nonlinear_arith)
        requires
            side(h, 3, q) == (lo.x - lo.x) * (q.y - hi.y) - (lo.y - hi.y) * (q.x - lo.x),
            t == hi.y - lo.y,
    ;
    assert(w * (q.y - lo.y) < 0 <==> q.y < lo.y) by (nonlinear_arith)
        requires
            w > 0,
    ;
    assert(t * (hi.x - q.x) < 0 <==> q.x > hi.x) by (nonlinear_arith)
        requires
            t > 0,
    ;
    assert(w * (hi.y - q.y) < 0 <==> q.y > hi.y) by (nonlinear_arith)
        requires
            w > 0,
    ;
    assert(t * (q.x - lo.x) < 0 <==> q.x < lo.x) by (nonlinear_arith)
        requires
            t > 0,
    ;
}

/// An edge of the first of two rectangles of positive width and height
/// separates the second where the second lies beyond a side of the first.
proof fn lemma_box_apart(lo1: Point, hi1: Point, lo2: Point, hi2: Point)
    requires
        lo1.x < hi1.x,
        lo1.y < hi1.y,
        lo2.x <= hi2.x,
        lo2.y <= hi2.y,
    ensures
        apart(corners(lo1, hi1), corners(lo2, hi2)) <==> (hi2.y < lo1.y || lo2.x > hi1.x || lo2.y
            > hi1.y || hi2.x < lo1.x),
{
    let h = corners(lo1, hi1);
    let g = corners(lo2, hi2);
    lemma_sides_of_box(lo1, hi1, g[0]);
    lemma_sides_of_box(lo1, hi1, g[1]);
    lemma_sides_of_box(lo1, hi1, g[2]);
    lemma_sides_of_box(lo1, hi1, g[3]);
    assert(separates(h, 0, g) <==> hi2.y < lo1.y) by {
        if hi2.y < lo1.y {
            assert forall|j: int| 0 <= j < g.len() implies side(h, 0, #[trigger] g[j]) < 0 by {
                lemma_sides_of_box(lo1, hi1, g[j]);
            }
        }
        if separates(h, 0, g) {
            assert(side(h, 0, g[2]) < 0);
        }
    }
    assert(separates(h, 1, g) <==> lo2.x > hi1.x) by {
        if lo2.x > hi1.x {
            assert forall|j: int| 0 <= j < g.len() implies side(h, 1, #[trigger] g[j]) < 0 by {
                lemma_sides_of_box(lo1, hi1, g[j]);
            }
        }
        if separates(h, 1, g) {
            assert(side(h, 1, g[0]) < 0);
        }
    }
    assert(separates(h, 2, g) <==> lo2.y > hi1.y) by {
        if lo2.y > hi1.y {
            assert forall|j: int| 0 <= j < g.len() implies side(h, 2, #[trigger] g[j]) < 0 by {
                lemma_sides_of_box(lo1, hi1, g[j]);
            }
        }
        if separates(h, 2, g) {
            assert(side(h, 2, g[0]) < 0);
        }
    }
    assert(separates(h, 3, g) <==> hi2.x < lo1.x) by {
        if hi2.x < lo1.x {
            assert forall|j: int| 0 <= j < g.len() implies side(h, 3, #[trigger] g[j]) < 0 by {
                lemma_sides_of_box(lo1, hi1, g[j]);
            }
        }
        if separates(h, 3, g) {
            assert(side(h, 3, g[2]) < 0);
        }
    }
    if apart(h, g) {
        let i = choose|i: int| 0 <= i < h.len() && #[trigger] separates(h, i, g);
        assert(i == 0 || i == 1 || i == 2 || i == 3);
    }
}

/// Two boxes of positive width and height collide as the polygons of their
/// corners do: the test of the extents and the test of the separating edges
/// agree.
pub proof fn law_boxes_as_polygons(lo1: Point, hi1: Point, lo2: Point, hi2: Point)
    requires
        lo1.x < hi1.x,
        lo1.y < hi1.y,
        lo2.x < hi2.x,
        lo2.y < hi2.y,
    ensures
        rects_meet(lo1, hi1, lo2, hi2) == hulls_meet(corners(lo1, hi1), corners(lo2, hi2)),
{
    lemma_box_apart(lo1, hi1, lo2, hi2);
    lemma_box_apart(lo2, hi2, lo1, hi1);
}


/// Every vertex of the polygon `h` lies on the inner side of every edge of
/// `h`, as the vertices of a convex polygon do.
pub open spec fn convex(h: Seq<Point>) -> bool {
    forall|i: int, j: int| 0 <= i < h.len() && 0 <= j < h.len() ==> #[trigger] side(h, i, h[j]) >= 0
}

/// The difference of the sides of an edge on which two points lie is the
/// cross product of the edge with the way from the one to the other.
proof fn lemma_side_difference(h: Seq<Point>, i: int, a: Point, b: Point)
    ensures
        side(h, i, b) - side(h, i, a) == h[next_index(i, h.len() as int)].minus(h[i]).cross(
            b.minus(a),
        ),
{
    let o = h[i];
    let e = h[next_index(i, h.len() as int)].minus(o);
    assert(e.cross(b.minus(o)) - e.cross(a.minus(o)) == e.cross(b.minus(a))) by (nonlinear_arith)
        requires
            e.cross(b.minus(o)) == e.x * (b.y - o.y) - e.y * (b.x - o.x),
            e.cross(a.minus(o)) == e.x * (a.y - o.y) - e.y * (a.x - o.x),
            e.cross(b.minus(a)) == e.x * (b.y - a.y) - e.y * (b.x - a.x),
    ;
}

/// Where the engine finds that two convex polygons share a point, no edge of
/// either separates them: the polygons collide.
pub proof fn law_shared_point_collides(x: Closest, h: Seq<Point>, g: Seq<Point>)
    requires
        x.describes(h, g),
        x.hit,
        convex(h),
        convex(g),
    ensures
        hulls_meet(h, g),
{
    let s = x.simplex;
    let ws = s.points(h, g);
    assert(forall|k: int| 0 <= k < s.count ==> (#[trigger] s.ia[k]) < h.len() && s.ib[k] < g.len());
    if apart(h, g) {
        let i = choose|i: int| 0 <= i < h.len() && #[trigger] separates(h, i, g);
        let e = h[next_index(i, h.len() as int)].minus(h[i]);
        let d = Point { x: -e.y, y: e.x };
        assert forall|k: int| 0 <= k < ws.len() implies (#[trigger] ws[k]).dot(d) <= -1 by {
            let a = h[s.ia[k] as int];
            let b = g[s.ib[k] as int];
            assert(ws[k] == diff(h, g, s.ia[k] as int, s.ib[k] as int));
            assert(side(h, i, g[s.ib[k] as int]) < 0);
            assert(side(h, i, h[s.ia[k] as int]) >= 0);
            lemma_side_difference(h, i, a, b);
            assert(ws[k].dot(d) == e.cross(ws[k])) by (nonlinear_arith)
                requires
                    d.x == -e.y,
                    d.y == e.x,
                    ws[k].dot(d) == ws[k].x * d.x + ws[k].y * d.y,
                    e.cross(ws[k]) == e.x * ws[k].y - e.y * ws[k].x,
            ;
        }
        lemma_origin_not_behind(ws, d, -1);
    }
    if apart(g, h) {
        let j = choose|j: int| 0 <= j < g.len() && #[trigger] separates(g, j, h);
        let e = g[next_index(j, g.len() as int)].minus(g[j]);
        let d = Point { x: e.y, y: -e.x };
        assert forall|k: int| 0 <= k < ws.len() implies (#[trigger] ws[k]).dot(d) <= -1 by {
            let a = h[s.ia[k] as int];
            let b = g[s.ib[k] as int];
            assert(ws[k] == diff(h, g, s.ia[k] as int, s.ib[k] as int));
            assert(side(g, j, h[s.ia[k] as int]) < 0);
            assert(side(g, j, g[s.ib[k] as int]) >= 0);
            lemma_side_difference(g, j, a, b);
            assert(ws[k].dot(d) == -e.cross(ws[k])) by (nonlinear_arith)
                requires
                    d.x == e.y,
                    d.y == -e.x,
                    ws[k].dot(d) == ws[k].x * d.x + ws[k].y * d.y,
                    e.cross(ws[k]) == e.x * ws[k].y - e.y * ws[k].x,
            ;
        }
        lemma_origin_not_behind(ws, d, -1);
    }
}


/// The point that divides the segment from `a` to `b` in the parts `s` and
/// `n - s` of `n` is within `r` of `p`: stated without fractions, the distance
/// of `n` times `p` from `n` times that point is at most `n` times `r`.
pub open spec fn within_on_segment(a: Point, b: Point, p: Point, r: int, s: int, n: int) -> bool {
    let x = n * p.x - ((n - s) * a.x + s * b.x);
    let y = n * p.y - ((n - s) * a.y + s * b.y);
    n > 0 && 0 <= s <= n && x * x + y * y <= (r * r) * (n * n)
}

/// The way from `n` times the point that divides the segment from `a` to `b`
/// in the parts `s` and `n - s` to `n` times `p`, in terms of the ways from
/// `a` to `p` and to `b`.
proof fn lemma_on_segment_from_start(a: Point, b: Point, p: Point, s: int, n: int)
    ensures
        n * p.x - ((n - s) * a.x + s * b.x) == n * (p.x - a.x) - s * (b.x - a.x),
        n * p.y - ((n - s) * a.y + s * b.y) == n * (p.y - a.y) - s * (b.y - a.y),
{
    assert(n * p.x - ((n - s) * a.x + s * b.x) == n * (p.x - a.x) - s * (b.x - a.x))
        by (nonlinear_arith);
    assert(n * p.y - ((n - s) * a.y + s * b.y) == n * (p.y - a.y) - s * (b.y - a.y))
        by (nonlinear_arith);
}

/// A point of a segment that is within `r` of `p` shows that `p` is within
/// `r` of the segment.
proof fn lemma_near_from_point(a: Point, b: Point, p: Point, r: int, s: int, n: int)
    requires
        within_on_segment(a, b, p, r, s, n),
    ensures
        near_segment(a, b, p, r),
{
    let e = b.minus(a);
    let w = p.minus(a);
    let t = w.dot(e);
    let ee = e.norm_sq();
    let ww = w.norm_sq();
    let x = n * w.x - s * e.x;
    let y = n * w.y - s * e.y;
    lemma_on_segment_from_start(a, b, p, s, n);
    assert(x * x + y * y <= (r * r) * (n * n));
    lemma_weighted_norm(n, w.x, w.y, s, e.x, e.y);
    assert(x * x + y * y == (n * n) * ww - 2 * ((n * s) * t) + (s * s) * ee);
    assert(n * n > 0 && n * s >= 0 && s * s >= 0 && (n - s) * n >= 0) by (nonlinear_arith)
        requires
            n > 0,
            0 <= s <= n,
    ;
    assert(ee >= 0) by (nonlinear_arith)
        requires
            ee == e.x * e.x + e.y * e.y,
    ;
    if t <= 0 {
        assert((n * s) * t <= 0 && (s * s) * ee >= 0) by (nonlinear_arith)
            requires
                n * s >= 0,
                t <= 0,
                s * s >= 0,
                ee >= 0,
        ;
        assert(ww <= r * r) by (nonlinear_arith)
            requires
                (n * n) * ww <= (r * r) * (n * n),
                n * n > 0,
        ;
    } else if t >= ee {
        let v = p.minus(b);
        let vv = v.norm_sq();
        let m = n - s;
        assert(n * v.x + m * e.x == x && n * v.y + m * e.y == y) by (nonlinear_arith)
            requires
                v.x == w.x - e.x,
                v.y == w.y - e.y,
                m == n - s,
                x == n * w.x - s * e.x,
                y == n * w.y - s * e.y,
        ;
        lemma_weighted_norm(n, v.x, v.y, -m, e.x, e.y);
        assert(n * v.x - (-m) * e.x == x && n * v.y - (-m) * e.y == y) by (nonlinear_arith)
            requires
                n * v.x + m * e.x == x,
                n * v.y + m * e.y == y,
        ;
        let tv = v.x * e.x + v.y * e.y;
        assert(tv == t - ee) by (nonlinear_arith)
            requires
                v.x == w.x - e.x,
                v.y == w.y - e.y,
                tv == v.x * e.x + v.y * e.y,
                t == w.x * e.x + w.y * e.y,
                ee == e.x * e.x + e.y * e.y,
        ;
        assert((n * (-m)) * tv <= 0 && ((-m) * (-m)) * ee >= 0) by (nonlinear_arith)
            requires
                n > 0,
                m >= 0,
                tv >= 0,
                ee >= 0,
        ;
        assert(x * x + y * y == (n * n) * vv - 2 * ((n * (-m)) * tv) + ((-m) * (-m)) * ee);
        assert(vv <= r * r) by (nonlinear_arith)
            requires
                (n * n) * vv <= (r * r) * (n * n),
                n * n > 0,
        ;
    } else {
        let c = w.cross(e);
        lemma_weighted_cross_with(n, w.x, w.y, s, e.x, e.y);
        lemma_lagrange(x, y, e.x, e.y);
        let xc = x * e.y - y * e.x;
        let xd = x * e.x + y * e.y;
        assert(xc == n * c);
        assert(xc * xc <= (x * x + y * y) * ee) by (nonlinear_arith)
            requires
                (x * x + y * y) * ee - xd * xd == xc * xc,
                ee == e.x * e.x + e.y * e.y,
        ;
        assert(xc * xc == (n * n) * (c * c)) by (nonlinear_arith)
            requires
                xc == n * c,
        ;
        assert((x * x + y * y) * ee <= ((r * r) * (n * n)) * ee) by (nonlinear_arith)
            requires
                x * x + y * y <= (r * r) * (n * n),
                ee >= 0,
        ;
        assert(((r * r) * (n * n)) * ee == (n * n) * ((r * r) * ee)) by (nonlinear_arith);
        assert(c * c <= (r * r) * ee) by (nonlinear_arith)
            requires
                (n * n) * (c * c) <= (n * n) * ((r * r) * ee),
                n * n > 0,
        ;
        assert(r * r * ee == (r * r) * ee);
    }
}

/// A point within `r` of a segment is within `r` of a point of it: of an end,
/// or of its foot on the segment.
proof fn lemma_point_from_near(a: Point, b: Point, p: Point, r: int)
    requires
        near_segment(a, b, p, r),
    ensures
        exists|s: int, n: int| within_on_segment(a, b, p, r, s, n),
{
    let e = b.minus(a);
    let w = p.minus(a);
    let t = w.dot(e);
    let ee = e.norm_sq();
    if t <= 0 {
        lemma_on_segment_from_start(a, b, p, 0, 1);
        assert(within_on_segment(a, b, p, r, 0, 1)) by (nonlinear_arith)
            requires
                w.norm_sq() <= r * r,
                w.norm_sq() == w.x * w.x + w.y * w.y,
                w.x == p.x - a.x,
                w.y == p.y - a.y,
                within_on_segment(a, b, p, r, 0, 1) == {
                    let x = 1 * p.x - ((1 - 0) * a.x + 0 * b.x);
                    let y = 1 * p.y - ((1 - 0) * a.y + 0 * b.y);
                    1 > 0int && 0 <= 0int <= 1 && x * x + y * y <= (r * r) * (1 * 1)
                },
        ;
    } else if t >= ee {
        let v = p.minus(b);
        assert(within_on_segment(a, b, p, r, 1, 1)) by (nonlinear_arith)
            requires
                v.norm_sq() <= r * r,
                v.norm_sq() == v.x * v.x + v.y * v.y,
                v.x == p.x - b.x,
                v.y == p.y - b.y,
                within_on_segment(a, b, p, r, 1, 1) == {
                    let x = 1 * p.x - ((1 - 1) * a.x + 1 * b.x);
                    let y = 1 * p.y - ((1 - 1) * a.y + 1 * b.y);
                    1 > 0int && 0 <= 1int <= 1 && x * x + y * y <= (r * r) * (1 * 1)
                },
        ;
    } else {
        let c = w.cross(e);
        let x = ee * w.x - t * e.x;
        let y = ee * w.y - t * e.y;
        lemma_on_segment_from_start(a, b, p, t, ee);
        lemma_decompose(e.x, e.y, w.x, w.y);
        let k = e.x * w.y - e.y * w.x;
        assert(t == e.x * w.x + e.y * w.y) by (nonlinear_arith)
            requires
                t == w.x * e.x + w.y * e.y,
        ;
        assert(x == -(k * e.y) && y == k * e.x);
        assert(k == -c) by (nonlinear_arith)
            requires
                k == e.x * w.y - e.y * w.x,
                c == w.x * e.y - w.y * e.x,
        ;
        assert(x * x + y * y == (c * c) * ee) by (nonlinear_arith)
            requires
                x == -(k * e.y),
                y == k * e.x,
                k == -c,
                ee == e.x * e.x + e.y * e.y,
        ;
        assert((c * c) * ee <= (r * r) * (ee * ee)) by (nonlinear_arith)
            requires
                c * c <= r * r * ee,
                ee > 0,
        ;
        assert(within_on_segment(a, b, p, r, t, ee));
    }
}

/// A point is within `r` of a segment exactly where it is within `r` of a
/// point of the segment: the test of the foot and the two ends tells what the
/// distance from the nearest point of the segment is.
pub proof fn law_near_segment(a: Point, b: Point, p: Point, r: int)
    ensures
        near_segment(a, b, p, r) <==> exists|s: int, n: int| within_on_segment(a, b, p, r, s, n),
{
    if near_segment(a, b, p, r) {
        lemma_point_from_near(a, b, p, r);
    }
    if exists|s: int, n: int| within_on_segment(a, b, p, r, s, n) {
        let (s, n) = choose|s: int, n: int| within_on_segment(a, b, p, r, s, n);
        lemma_near_from_point(a, b, p, r, s, n);
    }
}


/// A point within `r` of an end of a segment is within `r` of the segment.
proof fn lemma_near_an_end(a: Point, b: Point, p: Point, r: int)
    requires
        dist_sq(p, a) <= r * r || dist_sq(p, b) <= r * r,
    ensures
        near_segment(a, b, p, r),
{
    if dist_sq(p, a) <= r * r {
        assert(within_on_segment(a, b, p, r, 0, 1)) by (nonlinear_arith)
            requires
                (p.x - a.x) * (p.x - a.x) + (p.y - a.y) * (p.y - a.y) <= r * r,
                within_on_segment(a, b, p, r, 0, 1) == {
                    let x = 1 * p.x - ((1 - 0) * a.x + 0 * b.x);
                    let y = 1 * p.y - ((1 - 0) * a.y + 0 * b.y);
                    1 > 0int && 0 <= 0int <= 1 && x * x + y * y <= (r * r) * (1 * 1)
                },
        ;
        lemma_near_from_point(a, b, p, r, 0, 1);
    } else {
        assert(within_on_segment(a, b, p, r, 1, 1)) by (nonlinear_arith)
            requires
                (p.x - b.x) * (p.x - b.x) + (p.y - b.y) * (p.y - b.y) <= r * r,
                within_on_segment(a, b, p, r, 1, 1) == {
                    let x = 1 * p.x - ((1 - 1) * a.x + 1 * b.x);
                    let y = 1 * p.y - ((1 - 1) * a.y + 1 * b.y);
                    1 > 0int && 0 <= 1int <= 1 && x * x + y * y <= (r * r) * (1 * 1)
                },
        ;
        lemma_near_from_point(a, b, p, r, 1, 1);
    }
}

/// The segment without length at `c` is within `r` of a segment exactly where
/// `c` is.
proof fn lemma_point_as_segment(c: Point, a: Point, b: Point, r: int)
    ensures
        segments_near(c, c, a, b, r) <==> near_segment(a, b, c, r),
{
    assert(orient(c, c, a) == 0 && orient(c, c, b) == 0) by (nonlinear_arith)
        requires
            orient(c, c, a) == (c.x - c.x) * (a.y - c.y) - (c.y - c.y) * (a.x - c.x),
            orient(c, c, b) == (c.x - c.x) * (b.y - c.y) - (c.y - c.y) * (b.x - c.x),
    ;
    let z = c.minus(c);
    assert(a.minus(c).dot(z) == 0 && b.minus(c).dot(z) == 0) by (nonlinear_arith)
        requires
            z.x == 0,
            z.y == 0,
            a.minus(c).dot(z) == a.minus(c).x * z.x + a.minus(c).y * z.y,
            b.minus(c).dot(z) == b.minus(c).x * z.x + b.minus(c).y * z.y,
    ;
    assert(dist_sq(c, a) == dist_sq(a, c) && dist_sq(c, b) == dist_sq(b, c)) by (nonlinear_arith)
        requires
            dist_sq(c, a) == (c.x - a.x) * (c.x - a.x) + (c.y - a.y) * (c.y - a.y),
            dist_sq(a, c) == (a.x - c.x) * (a.x - c.x) + (a.y - c.y) * (a.y - c.y),
            dist_sq(c, b) == (c.x - b.x) * (c.x - b.x) + (c.y - b.y) * (c.y - b.y),
            dist_sq(b, c) == (b.x - c.x) * (b.x - c.x) + (b.y - c.y) * (b.y - c.y),
    ;
    if near_segment(c, c, a, r) || near_segment(c, c, b, r) {
        lemma_near_an_end(a, b, c, r);
    }
}

/// A capsule whose segment has no length collides with a polygon as the
/// circle of its radius around its one end does.
pub proof fn law_capsule_of_a_point_and_polygon(c: Point, r: int, v: Seq<Point>)
    ensures
        pill_meets_hull(c, c, r, v) == disc_meets_hull(c, r, v),
{
    assert forall|i: int| 0 <= i < v.len() implies (#[trigger] segments_near(
        c,
        c,
        v[i],
        v[next_index(i, v.len() as int)],
        r,
    ) <==> near_segment(v[i], v[next_index(i, v.len() as int)], c, r)) by {
        lemma_point_as_segment(c, v[i], v[next_index(i, v.len() as int)], r);
    }
    if pill_meets_hull(c, c, r, v) && !inside(v, c) {
        let i = choose|i: int|
            0 <= i < v.len() && #[trigger] segments_near(
                c,
                c,
                v[i],
                v[next_index(i, v.len() as int)],
                r,
            );
        assert(near_segment(v[i], v[next_index(i, v.len() as int)], c, r));
    }
    if disc_meets_hull(c, r, v) && !inside(v, c) {
        let i = choose|i: int|
            0 <= i < v.len() && #[trigger] near_segment(
                v[i],
                v[next_index(i, v.len() as int)],
                c,
                r,
            );
        assert(segments_near(c, c, v[i], v[next_index(i, v.len() as int)], r));
    }
}


/// A number between `n` times `lo` and `n` times `hi` is at least `n` times
/// as far from `n` times `x` as `x` lies outside the interval from `lo` to
/// `hi`.
proof fn lemma_overshoot_scaled(x: int, lo: int, hi: int, q: int, n: int)
    requires
        n > 0,
        n * lo <= q <= n * hi,
    ensures
        (n * overshoot(x, lo, hi)) * (n * overshoot(x, lo, hi)) <= (n * x - q) * (n * x - q),
{
    let d = overshoot(x, lo, hi);
    let g = n * x - q;
    if x < lo {
        assert(0 <= n * d <= -g) by (nonlinear_arith)
            requires
                d == lo - x,
                g == n * x - q,
                q >= n * lo,
                n > 0,
                x < lo,
        ;
        assert((n * d) * (n * d) <= g * g) by (nonlinear_arith)
            requires
                0 <= n * d <= -g,
        ;
    } else if x > hi {
        assert(0 <= n * d <= g) by (nonlinear_arith)
            requires
                d == x - hi,
                g == n * x - q,
                q <= n * hi,
                n > 0,
                x > hi,
        ;
        assert((n * d) * (n * d) <= g * g) by (nonlinear_arith)
            requires
                0 <= n * d <= g,
        ;
    } else {
        assert((n * d) * (n * d) == 0) by (nonlinear_arith)
            requires
                d == 0,
        ;
        assert(g * g >= 0) by (nonlinear_arith);
    }
}

/// A weighted sum of two numbers between `lo` and `hi` lies between the sums
/// of the weights times `lo` and times `hi`.
proof fn lemma_mixed_between(a: int, b: int, lo: int, hi: int, s: int, n: int)
    by (nonlinear_arith)
    requires
        0 <= s <= n,
        lo <= a <= hi,
        lo <= b <= hi,
    ensures
        n * lo <= (n - s) * a + s * b <= n * hi,
{
}

/// A disc whose centre is within its radius of a segment in a rectangle
/// meets the rectangle.
proof fn lemma_edge_in_rect(a: Point, b: Point, c: Point, r: int, lo: Point, hi: Point)
    requires
        near_segment(a, b, c, r),
        lo.x <= a.x <= hi.x,
        lo.y <= a.y <= hi.y,
        lo.x <= b.x <= hi.x,
        lo.y <= b.y <= hi.y,
    ensures
        disc_meets_rect(c, r, lo, hi),
{
    lemma_point_from_near(a, b, c, r);
    let (s, n) = choose|s: int, n: int| within_on_segment(a, b, c, r, s, n);
    let qx = (n - s) * a.x + s * b.x;
    let qy = (n - s) * a.y + s * b.y;
    lemma_mixed_between(a.x, b.x, lo.x, hi.x, s, n);
    lemma_mixed_between(a.y, b.y, lo.y, hi.y, s, n);
    lemma_overshoot_scaled(c.x, lo.x, hi.x, qx, n);
    lemma_overshoot_scaled(c.y, lo.y, hi.y, qy, n);
    let dx = overshoot(c.x, lo.x, hi.x);
    let dy = overshoot(c.y, lo.y, hi.y);
    let gx = n * c.x - qx;
    let gy = n * c.y - qy;
    assert(gx * gx + gy * gy <= (r * r) * (n * n));
    lemma_square_of_product(n, dx);
    lemma_square_of_product(n, dy);
    assert((n * n) * (dx * dx + dy * dy) == (n * n) * (dx * dx) + (n * n) * (dy * dy))
        by (nonlinear_arith);
    assert((n * n) * (dx * dx + dy * dy) <= (n * n) * (r * r)) by (nonlinear_arith)
        requires
            (n * n) * (dx * dx + dy * dy) <= gx * gx + gy * gy,
            gx * gx + gy * gy <= (r * r) * (n * n),
    ;
    assert(dx * dx + dy * dy <= r * r) by (nonlinear_arith)
        requires
            (n * n) * (dx * dx + dy * dy) <= (n * n) * (r * r),
            n > 0,
    ;
}

/// A disc that meets a rectangle from outside is within its radius of the
/// edge of the rectangle that its centre lies beyond.
proof fn lemma_rect_edge_near(c: Point, r: int, lo: Point, hi: Point)
    requires
        lo.x < hi.x,
        lo.y < hi.y,
        disc_meets_rect(c, r, lo, hi),
        !(lo.x <= c.x <= hi.x && lo.y <= c.y <= hi.y),
    ensures
        exists|i: int|
            0 <= i < 4 && #[trigger] near_segment(
                corners(lo, hi)[i],
                corners(lo, hi)[next_index(i, 4)],
                c,
                r,
            ),
{
    let h = corners(lo, hi);
    let dx = overshoot(c.x, lo.x, hi.x);
    let dy = overshoot(c.y, lo.y, hi.y);
    let ly = clamp(c.y, lo.y, hi.y);
    let w = hi.x - lo.x;
    let t = hi.y - lo.y;
    assert(next_index(0, 4) == 1 && next_index(1, 4) == 2 && next_index(2, 4) == 3 && next_index(
        3,
        4,
    ) == 0);
    let lx = clamp(c.x, lo.x, hi.x);
    if c.x < lo.x {
        lemma_edge_point(t, hi.y - ly, lo.x, lo.x, c.x, lo.x, dx);
        lemma_edge_point(t, hi.y - ly, hi.y, lo.y, c.y, ly, dy);
        lemma_rect_point(h[3], h[0], c, r, hi.y - ly, t, dx, dy);
        assert(near_segment(h[3], h[next_index(3, 4)], c, r));
    } else if c.x > hi.x {
        lemma_edge_point(t, ly - lo.y, hi.x, hi.x, c.x, hi.x, dx);
        lemma_edge_point(t, ly - lo.y, lo.y, hi.y, c.y, ly, dy);
        lemma_rect_point(h[1], h[2], c, r, ly - lo.y, t, dx, dy);
        assert(near_segment(h[1], h[next_index(1, 4)], c, r));
    } else if c.y < lo.y {
        lemma_edge_point(w, lx - lo.x, lo.x, hi.x, c.x, lx, dx);
        lemma_edge_point(w, lx - lo.x, lo.y, lo.y, c.y, lo.y, dy);
        lemma_rect_point(h[0], h[1], c, r, lx - lo.x, w, dx, dy);
        assert(near_segment(h[0], h[next_index(0, 4)], c, r));
    } else {
        lemma_edge_point(w, hi.x - lx, hi.x, lo.x, c.x, lx, dx);
        lemma_edge_point(w, hi.x - lx, hi.y, hi.y, c.y, hi.y, dy);
        lemma_rect_point(h[2], h[3], c, r, hi.x - lx, w, dx, dy);
        assert(near_segment(h[2], h[next_index(2, 4)], c, r));
    }
}

/// The point that divides the way from `a` to `b` along one coordinate in the
/// parts `s` and `n - s` of `n`, where `n` is the length of the way or the
/// way has none, lies at `at`, and is `d` from `c`.
proof fn lemma_edge_point(n: int, s: int, a: int, b: int, c: int, at: int, d: int)
    by (nonlinear_arith)
    requires
        (a == b && at == a) || (b - a == n && at == a + s) || (a - b == n && at == a - s),
        c - at == d || c - at == -d,
    ensures
        n * c - ((n - s) * a + s * b) == n * d || n * c - ((n - s) * a + s * b) == -(n * d),
{
    assert(n * at == (n - s) * a + s * b);
}

/// The point that divides an edge along one of the coordinates in the parts
/// `s` and `n - s`, and that is `dx` and `dy` from `c` in the two
/// coordinates, shows that `c` is within `r` of the edge where the squares of
/// `dx` and `dy` add up to at most the square of `r`.
proof fn lemma_rect_point(a: Point, b: Point, c: Point, r: int, s: int, n: int, dx: int, dy: int)
    requires
        n > 0,
        0 <= s <= n,
        dx * dx + dy * dy <= r * r,
        n * c.x - ((n - s) * a.x + s * b.x) == n * dx || n * c.x - ((n - s) * a.x + s * b.x) == -(n
            * dx),
        n * c.y - ((n - s) * a.y + s * b.y) == n * dy || n * c.y - ((n - s) * a.y + s * b.y) == -(n
            * dy),
    ensures
        near_segment(a, b, c, r),
{
    let x = n * c.x - ((n - s) * a.x + s * b.x);
    let y = n * c.y - ((n - s) * a.y + s * b.y);
    lemma_square_of_product(n, dx);
    lemma_square_of_product(n, dy);
    assert(x * x == (n * dx) * (n * dx) && y * y == (n * dy) * (n * dy)) by (nonlinear_arith)
        requires
            x == n * dx || x == -(n * dx),
            y == n * dy || y == -(n * dy),
    ;
    assert(x * x + y * y <= (r * r) * (n * n)) by (nonlinear_arith)
        requires
            x * x == (n * n) * (dx * dx),
            y * y == (n * n) * (dy * dy),
            dx * dx + dy * dy <= r * r,
            n * n >= 0,
    ;
    lemma_near_from_point(a, b, c, r, s, n);
}

/// A circle collides with a box of positive width and height as with the
/// polygon of its corners: the test of the nearest point of the box and the
/// test of the edges agree.
pub proof fn law_box_as_polygon_for_circle(c: Point, r: int, lo: Point, hi: Point)
    requires
        lo.x < hi.x,
        lo.y < hi.y,
    ensures
        disc_meets_rect(c, r, lo, hi) == disc_meets_hull(c, r, corners(lo, hi)),
{
    let h = corners(lo, hi);
    lemma_sides_of_box(lo, hi, c);
    lemma_sides_of_box(lo, hi, h[2]);
    assert(next_index(0, 4) == 1 && next_index(1, 4) == 2 && next_index(2, 4) == 3 && next_index(
        3,
        4,
    ) == 0);
    let within = lo.x <= c.x <= hi.x && lo.y <= c.y <= hi.y;
    assert(has_area(h)) by {
        assert(side(h, 0, h[2]) > 0) by (nonlinear_arith)
            requires
                side(h, 0, h[2]) == (hi.x - lo.x) * (hi.y - lo.y) - (lo.y - lo.y) * (hi.x - lo.x),
                lo.x < hi.x,
                lo.y < hi.y,
        ;
    }
    assert(enclosed(h, c) <==> within) by {
        if within {
            assert forall|i: int| 0 <= i < h.len() implies #[trigger] side(h, i, c) >= 0 by {
                assert(i == 0 || i == 1 || i == 2 || i == 3);
            }
        }
        if enclosed(h, c) {
            assert(side(h, 0, c) >= 0 && side(h, 1, c) >= 0 && side(h, 2, c) >= 0 && side(h, 3, c)
                >= 0);
        }
    }
    if disc_meets_hull(c, r, h) {
        if !inside(h, c) {
            let i = choose|i: int|
                0 <= i < h.len() && #[trigger] near_segment(h[i], h[next_index(i, 4)], c, r);
            assert(i == 0 || i == 1 || i == 2 || i == 3);
            lemma_edge_in_rect(h[i], h[next_index(i, 4)], c, r, lo, hi);
        } else {
            assert(disc_meets_rect(c, r, lo, hi)) by (nonlinear_arith)
                requires
                    overshoot(c.x, lo.x, hi.x) == 0,
                    overshoot(c.y, lo.y, hi.y) == 0,
                    disc_meets_rect(c, r, lo, hi) == (overshoot(c.x, lo.x, hi.x) * overshoot(
                        c.x,
                        lo.x,
                        hi.x,
                    ) + overshoot(c.y, lo.y, hi.y) * overshoot(c.y, lo.y, hi.y) <= r * r),
            ;
        }
    }
    if disc_meets_rect(c, r, lo, hi) && !within {
        lemma_rect_edge_near(c, r, lo, hi);
    }
}


} // verus!
