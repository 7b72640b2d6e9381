//! Why the walk around the points of a polygon finds their convex hull
//! wherever they have one.

use vstd::prelude::*;
use crate::algebra::{
    lemma_cross_along, lemma_cross_shift, lemma_lagrange, lemma_three_vectors,
    lemma_triangle_weights, lemma_weighted_dot,
};
use crate::poly::{collinear, drawn_from, is_hull, lex_le, next_index};
use crate::scalar::lemma_product_bound;
use crate::vec2::{dist_sq, orient, Point};

verus! {

/// The first vertex of `h` is the first of its vertices by `x`, then `y`.
pub open spec fn lowest_first(h: Seq<Point>) -> bool {
    forall|i: int| 0 <= i < h.len() ==> lex_le(h[0], #[trigger] h[i])
}

/// The points `s` have a convex hull: a polygon of three to eight vertices
/// that is the hull of `s` and begins with the first of its vertices by `x`,
/// then `y`.
pub open spec fn has_hull(s: Seq<Point>) -> bool {
    exists|h: Seq<Point>| #[trigger] hull_of(h, s)
}

/// `h` is the convex hull of `s`, of three to eight vertices, and begins with
/// the first of its vertices by `x`, then `y`.
pub open spec fn hull_of(h: Seq<Point>, s: Seq<Point>) -> bool {
    3 <= h.len() <= 8 && is_hull(h, s) && lowest_first(h)
}

/// From `c`, the boundary of the hull of `s` leads to `w`: every other point
/// of `s` lies to the left of the way from `c` to `w`, or on that way and not
/// beyond `w`.
pub closed spec fn leads(c: Point, w: Point, s: Seq<Point>) -> bool {
    &&& w != c
    &&& forall|k: int|
        0 <= k < s.len() && s[k] != c ==> #[trigger] nears(c, w, s[k])
}

/// `p` lies to the left of the way from `c` to `w`, or on that way and not
/// beyond `w`.
pub open spec fn nears(c: Point, w: Point, p: Point) -> bool {
    orient(c, w, p) > 0 || (orient(c, w, p) == 0 && p.minus(c).dot(w.minus(c)) > 0 && dist_sq(p, c)
        <= dist_sq(w, c))
}

/// A point on the line of an edge of a strictly convex polygon, and on the
/// inner side of the edge before it and of the edge after it, lies on the edge:
/// in coordinates from the start `c` of the edge, where `e` is the edge, `u`
/// the point, `g` the edge before and `e2` the edge after.
proof fn lemma_on_edge(e: Point, u: Point, g: Point, e2: Point)
    requires
        e.cross(u) == 0,
        u.x != 0 || u.y != 0,
        g.cross(u) >= 0,
        g.cross(e) > 0,
        e2.cross(u.minus(e)) >= 0,
        e.cross(e2) > 0,
    ensures
        e.dot(u) > 0,
        u.norm_sq() <= e.norm_sq(),
{
    let q = e.norm_sq();
    let s = e.dot(u);
    assert(q > 0) by (nonlinear_arith)
        requires
            q == e.x * e.x + e.y * e.y,
            g.x * e.y - g.y * e.x > 0,
    ;
    lemma_cross_along(g.x, g.y, e.x, e.y, u.x, u.y);
    assert(s >= 0) by (nonlinear_arith)
        requires
            q * g.cross(u) == s * g.cross(e),
            q > 0,
            g.cross(u) >= 0,
            g.cross(e) > 0,
    ;
    if s == 0 {
        assert(u.x == 0 && u.y == 0) by (nonlinear_arith)
            requires
                q * u.x == s * e.x,
                q * u.y == s * e.y,
                s == 0,
                q > 0,
        ;
    }
    let v = u.minus(e);
    assert(e.cross(v) == 0) by (nonlinear_arith)
        requires
            e.x * u.y - e.y * u.x == 0,
            v.x == u.x - e.x,
            v.y == u.y - e.y,
            e.cross(v) == e.x * v.y - e.y * v.x,
    ;
    lemma_cross_along(e2.x, e2.y, e.x, e.y, v.x, v.y);
    assert(e.dot(v) == s - q) by (nonlinear_arith)
        requires
            v.x == u.x - e.x,
            v.y == u.y - e.y,
            e.dot(v) == e.x * v.x + e.y * v.y,
            s == e.x * u.x + e.y * u.y,
            q == e.x * e.x + e.y * e.y,
    ;
    assert(e2.cross(e) == -e.cross(e2)) by (nonlinear_arith)
        requires
            e2.cross(e) == e2.x * e.y - e2.y * e.x,
            e.cross(e2) == e.x * e2.y - e.y * e2.x,
    ;
    assert(s - q <= 0) by (nonlinear_arith)
        requires
            q * e2.cross(v) == (s - q) * e2.cross(e),
            q > 0,
            e2.cross(v) >= 0,
            e2.cross(e) < 0,
    ;
    lemma_lagrange(e.x, e.y, u.x, u.y);
    assert(q * u.norm_sq() == s * s) by (nonlinear_arith)
        requires
            q * u.norm_sq() - s * s == e.cross(u) * e.cross(u),
            e.cross(u) == 0,
    ;
    assert(u.norm_sq() <= q) by (nonlinear_arith)
        requires
            q * u.norm_sq() == s * s,
            0 < s <= q,
    ;
}

/// The edges of a hull lead around it: from each vertex the boundary leads to
/// the next.
pub proof fn lemma_edge_leads(h: Seq<Point>, s: Seq<Point>, i: int)
    requires
        is_hull(h, s),
        0 <= i < h.len(),
    ensures
        leads(h[i], h[next_index(i, h.len() as int)], s),
{
    let n = h.len() as int;
    let i1 = next_index(i, n);
    let i2 = next_index(i1, n);
    let i0 = if i == 0 {
        n - 1
    } else {
        i - 1
    };
    let c = h[i];
    let w = h[i1];
    let pv = h[i0];
    let nn = h[i2];
    assert(next_index(i0, n) == i);
    assert(orient(pv, c, w) > 0);
    assert(orient(w, nn, c) > 0);
    let e = w.minus(c);
    let g = c.minus(pv);
    let e2 = nn.minus(w);
    lemma_cross_shift(g.x, g.y, e.x, e.y);
    lemma_cross_shift(e2.x, e2.y, -e.x, -e.y);
    assert(g.cross(e) > 0);
    assert(e.cross(e2) > 0) by (nonlinear_arith)
        requires
            e2.x * (-e.y) - e2.y * (-e.x) > 0,
            e.cross(e2) == e.x * e2.y - e.y * e2.x,
    ;
    assert(w != c) by {
        if w == c {
            assert(g.cross(e) == 0) by (nonlinear_arith)
                requires
                    e.x == 0,
                    e.y == 0,
                    g.cross(e) == g.x * e.y - g.y * e.x,
            ;
        }
    }
    assert forall|k: int| 0 <= k < s.len() && s[k] != c implies #[trigger] nears(c, w, s[k]) by {
        let p = s[k];
        let u = p.minus(c);
        assert(orient(c, w, p) >= 0);
        assert(orient(pv, c, p) >= 0);
        assert(orient(w, nn, p) >= 0);
        if orient(c, w, p) == 0 {
            lemma_cross_shift(g.x, g.y, u.x, u.y);
            assert(g.cross(u) >= 0);
            let v = u.minus(e);
            assert(p.minus(w) == v);
            lemma_on_edge(e, u, g, e2);
            assert(u.dot(e) == e.dot(u)) by (nonlinear_arith)
                requires
                    u.dot(e) == u.x * e.x + u.y * e.y,
                    e.dot(u) == e.x * u.x + e.y * u.y,
            ;
        }
    }
}

/// A vector is after the zero vector by `x`, then `y`.
pub open spec fn lex_positive(v: Point) -> bool {
    v.x > 0 || (v.x == 0 && v.y > 0)
}

/// A vector between two vectors that are after the zero vector by `x`, then
/// `y`, and less than half a turn apart, is not before it.
proof fn lemma_between_positive(a: Point, f: Point, u: Point)
    requires
        lex_positive(a),
        lex_positive(f),
        a.cross(f) > 0,
        a.cross(u) >= 0,
        u.cross(f) >= 0,
    ensures
        u.x > 0 || (u.x == 0 && u.y >= 0),
{
    let d = a.cross(f);
    let ca = u.cross(f);
    let cf = a.cross(u);
    lemma_triangle_weights(u.x, u.y, a.x, a.y, f.x, f.y);
    assert(f.cross(u) == -ca && u.cross(a) == -cf) by (nonlinear_arith)
        requires
            ca == u.x * f.y - u.y * f.x,
            cf == a.x * u.y - a.y * u.x,
            f.cross(u) == f.x * u.y - f.y * u.x,
            u.cross(a) == u.x * a.y - u.y * a.x,
    ;
    assert(d * u.x == ca * a.x + cf * f.x) by (nonlinear_arith)
        requires
            d * u.x + (-ca) * a.x + (-cf) * f.x == 0,
    ;
    assert(d * u.y == ca * a.y + cf * f.y) by (nonlinear_arith)
        requires
            d * u.y + (-ca) * a.y + (-cf) * f.y == 0,
    ;
    assert(u.x >= 0) by (nonlinear_arith)
        requires
            d * u.x == ca * a.x + cf * f.x,
            d > 0,
            ca >= 0,
            cf >= 0,
            a.x >= 0,
            f.x >= 0,
    ;
    if u.x == 0 && u.y < 0 {
        assert(ca * a.x + cf * f.x == 0) by (nonlinear_arith)
            requires
                d * u.x == ca * a.x + cf * f.x,
                u.x == 0,
        ;
        assert(ca * a.x >= 0 && cf * f.x >= 0) by (nonlinear_arith)
            requires
                ca >= 0,
                cf >= 0,
                a.x >= 0,
                f.x >= 0,
        ;
        assert(ca * a.y + cf * f.y < 0) by (nonlinear_arith)
            requires
                d * u.y == ca * a.y + cf * f.y,
                d > 0,
                u.y < 0,
        ;
        assert(ca * a.y >= 0) by (nonlinear_arith)
            requires
                ca >= 0,
                ca * a.x == 0,
                a.x > 0 || (a.x == 0 && a.y > 0),
        ;
        assert(cf * f.y >= 0) by (nonlinear_arith)
            requires
                cf >= 0,
                cf * f.x == 0,
                f.x > 0 || (f.x == 0 && f.y > 0),
        ;
    }
}

/// The vertices of a hull are different points.
pub proof fn lemma_vertices_differ(h: Seq<Point>, s: Seq<Point>, i: int, j: int)
    requires
        is_hull(h, s),
        0 <= i < h.len(),
        0 <= j < h.len(),
        i != j,
    ensures
        h[i] != h[j],
{
    let n = h.len() as int;
    if h[i] == h[j] {
        let i1 = next_index(i, n);
        if j != i1 {
            assert(orient(h[i], h[i1], h[j]) > 0);
            assert(orient(h[i], h[i1], h[i]) == 0) by (nonlinear_arith)
                requires
                    orient(h[i], h[i1], h[i]) == (h[i1].x - h[i].x) * (h[i].y - h[i].y) - (h[i1].y
                        - h[i].y) * (h[i].x - h[i].x),
            ;
        } else {
            let k = next_index(i1, n);
            assert(k != i && k != i1);
            assert(orient(h[i], h[i1], h[k]) > 0);
            assert(orient(h[i], h[i], h[k]) == 0) by (nonlinear_arith)
                requires
                    orient(h[i], h[i], h[k]) == (h[i].x - h[i].x) * (h[k].y - h[i].y) - (h[i].y
                        - h[i].y) * (h[k].x - h[i].x),
            ;
        }
    }
}

/// No point of `s` comes before the first vertex of the hull of `s` by `x`,
/// then `y`.
pub proof fn lemma_hull_lowest(h: Seq<Point>, s: Seq<Point>, low: Point)
    requires
        hull_of(h, s),
        s.contains(low),
    ensures
        lex_le(h[0], low),
{
    let n = h.len() as int;
    let v = h[0];
    let nx = h[1];
    let pv = h[n - 1];
    if !lex_le(v, low) {
        let kl = choose|k: int| 0 <= k < s.len() && s[k] == low;
        lemma_vertices_differ(h, s, 0, 1);
        lemma_vertices_differ(h, s, 0, n - 1);
        assert(lex_le(v, h[1]));
        assert(lex_le(v, h[n - 1]));
        let a = nx.minus(v);
        let f = pv.minus(v);
        let u = low.minus(v);
        assert(lex_positive(a));
        assert(lex_positive(f));
        assert(next_index(0, n) == 1);
        assert(next_index(n - 1, n) == 0);
        assert(orient(v, nx, s[kl]) >= 0);
        assert(orient(pv, v, s[kl]) >= 0);
        assert(orient(pv, v, nx) > 0);
        assert(a.cross(u) >= 0);
        assert(u.cross(f) >= 0) by (nonlinear_arith)
            requires
                (v.x - pv.x) * (low.y - pv.y) - (v.y - pv.y) * (low.x - pv.x) >= 0,
                u.x == low.x - v.x,
                u.y == low.y - v.y,
                f.x == pv.x - v.x,
                f.y == pv.y - v.y,
                u.cross(f) == u.x * f.y - u.y * f.x,
        ;
        assert(a.cross(f) > 0) by (nonlinear_arith)
            requires
                (v.x - pv.x) * (nx.y - pv.y) - (v.y - pv.y) * (nx.x - pv.x) > 0,
                a.x == nx.x - v.x,
                a.y == nx.y - v.y,
                f.x == pv.x - v.x,
                f.y == pv.y - v.y,
                a.cross(f) == a.x * f.y - a.y * f.x,
        ;
        lemma_between_positive(a, f, u);
    }
}

/// From a point the boundary of the hull leads to one point only.
pub proof fn lemma_one_way_out(c: Point, w1: Point, w2: Point, s: Seq<Point>)
    requires
        leads(c, w1, s),
        leads(c, w2, s),
        s.contains(w1),
        s.contains(w2),
    ensures
        w1 == w2,
{
    let k1 = choose|k: int| 0 <= k < s.len() && s[k] == w1;
    let k2 = choose|k: int| 0 <= k < s.len() && s[k] == w2;
    assert(nears(c, w1, s[k2]));
    assert(nears(c, w2, s[k1]));
    assert(orient(c, w2, w1) == -orient(c, w1, w2)) by (nonlinear_arith)
        requires
            orient(c, w2, w1) == (w2.x - c.x) * (w1.y - c.y) - (w2.y - c.y) * (w1.x - c.x),
            orient(c, w1, w2) == (w1.x - c.x) * (w2.y - c.y) - (w1.y - c.y) * (w2.x - c.x),
    ;
    lemma_same_vector(w2.minus(c), w1.minus(c));
}

/// Two hulls of the same points have the same vertices as far as both go.
proof fn lemma_hulls_agree(h1: Seq<Point>, h2: Seq<Point>, s: Seq<Point>, i: int)
    requires
        hull_of(h1, s),
        hull_of(h2, s),
        0 <= i < h1.len(),
        0 <= i < h2.len(),
    ensures
        h1[i] == h2[i],
    decreases i,
{
    if i == 0 {
        assert(s.contains(h1[0]) && s.contains(h2[0]));
        lemma_hull_lowest(h1, s, h2[0]);
        lemma_hull_lowest(h2, s, h1[0]);
    } else {
        lemma_hulls_agree(h1, h2, s, i - 1);
        lemma_edge_leads(h1, s, i - 1);
        lemma_edge_leads(h2, s, i - 1);
        assert(s.contains(h1[i]) && s.contains(h2[i]));
        lemma_one_way_out(h1[i - 1], h1[i], h2[i], s);
    }
}

/// Points have one convex hull at most: two hulls of the same points have the
/// same vertices in the same order.
pub proof fn lemma_hull_unique(h1: Seq<Point>, h2: Seq<Point>, s: Seq<Point>)
    requires
        hull_of(h1, s),
        hull_of(h2, s),
    ensures
        h1 == h2,
{
    let n1 = h1.len() as int;
    let n2 = h2.len() as int;
    if n1 < n2 {
        lemma_hulls_agree(h1, h2, s, n1 - 1);
        lemma_hulls_agree(h1, h2, s, 0);
        lemma_edge_leads(h1, s, n1 - 1);
        lemma_edge_leads(h2, s, n1 - 1);
        assert(s.contains(h1[0]) && s.contains(h2[n1]));
        lemma_one_way_out(h1[n1 - 1], h1[0], h2[n1], s);
        lemma_vertices_differ(h2, s, 0, n1);
    } else if n2 < n1 {
        lemma_hulls_agree(h1, h2, s, n2 - 1);
        lemma_hulls_agree(h1, h2, s, 0);
        lemma_edge_leads(h1, s, n2 - 1);
        lemma_edge_leads(h2, s, n2 - 1);
        assert(s.contains(h2[0]) && s.contains(h1[n2]));
        lemma_one_way_out(h2[n2 - 1], h2[0], h1[n2], s);
        lemma_vertices_differ(h1, s, 0, n2);
    } else {
        assert forall|i: int| 0 <= i < n1 implies h1[i] == h2[i] by {
            lemma_hulls_agree(h1, h2, s, i);
        }
        assert(h1 =~= h2);
    }
}

/// Two vectors along one line and one way, of the same length, are the same.
pub proof fn lemma_same_vector(u: Point, e: Point)
    requires
        e.cross(u) == 0,
        u.dot(e) > 0,
        u.norm_sq() == e.norm_sq(),
    ensures
        u == e,
{
    let q = e.norm_sq();
    let s = e.dot(u);
    lemma_lagrange(e.x, e.y, u.x, u.y);
    assert(s == u.dot(e)) by (nonlinear_arith)
        requires
            s == e.x * u.x + e.y * u.y,
            u.dot(e) == u.x * e.x + u.y * e.y,
    ;
    assert(s * s == q * q) by (nonlinear_arith)
        requires
            q * u.norm_sq() - s * s == e.cross(u) * e.cross(u),
            e.cross(u) == 0,
            u.norm_sq() == q,
    ;
    assert(q >= 0) by (nonlinear_arith)
        requires
            q == e.x * e.x + e.y * e.y,
    ;
    assert(s == q) by (nonlinear_arith)
        requires
            s * s == q * q,
            s > 0,
            q >= 0,
    ;
    assert((u.x - e.x) * (u.x - e.x) + (u.y - e.y) * (u.y - e.y) == 0) by (nonlinear_arith)
        requires
            u.x * u.x + u.y * u.y == q,
            e.x * e.x + e.y * e.y == q,
            e.x * u.x + e.y * u.y == q,
    ;
    assert(u.x - e.x == 0 && u.y - e.y == 0) by (nonlinear_arith)
        requires
            (u.x - e.x) * (u.x - e.x) + (u.y - e.y) * (u.y - e.y) == 0,
    ;
}

/// Every point of `s` other than `c` lies strictly on the side of `c` that
/// `hv` points to.
pub closed spec fn faces(c: Point, hv: Point, s: Seq<Point>) -> bool {
    forall|k: int| 0 <= k < s.len() && s[k] != c ==> hv.dot((#[trigger] s[k]).minus(c)) > 0
}

/// A point other than `c` is as near to the way from `c` to itself as can be.
pub proof fn lemma_nears_self(c: Point, q: Point)
    requires
        q != c,
    ensures
        nears(c, q, q),
{
    let u = q.minus(c);
    assert(orient(c, q, q) == 0) by (nonlinear_arith)
        requires
            orient(c, q, q) == u.x * u.y - u.y * u.x,
    ;
    assert(u.dot(u) > 0) by (nonlinear_arith)
        requires
            u.x != 0 || u.y != 0,
            u.dot(u) == u.x * u.x + u.y * u.y,
    ;
}

/// Two vectors along one line on the same side of a line through the origin
/// point the same way.
proof fn lemma_same_way(b: Point, q: Point, hv: Point)
    requires
        b.cross(q) == 0,
        hv.dot(b) > 0,
        hv.dot(q) > 0,
    ensures
        b.dot(q) > 0,
{
    lemma_cross_along(0, 0, b.x, b.y, q.x, q.y);
    let n = b.norm_sq();
    let s = b.dot(q);
    lemma_weighted_dot(n, q.x, q.y, hv.x, hv.y);
    lemma_weighted_dot(s, b.x, b.y, hv.x, hv.y);
    assert(q.x * hv.x + q.y * hv.y == hv.dot(q)) by (nonlinear_arith)
        requires
            hv.dot(q) == hv.x * q.x + hv.y * q.y,
    ;
    assert(b.x * hv.x + b.y * hv.y == hv.dot(b)) by (nonlinear_arith)
        requires
            hv.dot(b) == hv.x * b.x + hv.y * b.y,
    ;
    assert(n * hv.dot(q) == s * hv.dot(b));
    assert(n > 0) by (nonlinear_arith)
        requires
            n == b.x * b.x + b.y * b.y,
            hv.x * b.x + hv.y * b.y > 0,
    ;
    assert(s > 0) by (nonlinear_arith)
        requires
            n * hv.dot(q) == s * hv.dot(b),
            n > 0,
            hv.dot(q) > 0,
            hv.dot(b) > 0,
    ;
}

/// Where the points other than `c` all lie on one side of `c`, a point `q`
/// that is not as near to the way from `c` to `b` as `b` is takes the place
/// of `b`: what was as near to the way to `b` is as near to the way to `q`.
pub proof fn lemma_nears_step(c: Point, b: Point, q: Point, p: Point, hv: Point)
    requires
        nears(c, b, p),
        hv.dot(b.minus(c)) > 0,
        hv.dot(q.minus(c)) > 0,
        hv.dot(p.minus(c)) > 0,
        orient(c, b, q) < 0 || (orient(c, b, q) == 0 && dist_sq(q, c) > dist_sq(b, c)),
    ensures
        nears(c, q, p),
{
    let bv = b.minus(c);
    let qv = q.minus(c);
    let pv = p.minus(c);
    lemma_three_vectors(qv.x, qv.y, bv.x, bv.y, pv.x, pv.y, hv.x, hv.y);
    assert(qv.cross(bv) == -bv.cross(qv)) by (nonlinear_arith)
        requires
            qv.cross(bv) == qv.x * bv.y - qv.y * bv.x,
            bv.cross(qv) == bv.x * qv.y - bv.y * qv.x,
    ;
    let lhs = qv.cross(pv);
    let hb = hv.dot(bv);
    let hp = hv.dot(pv);
    let hq = hv.dot(qv);
    let qb = qv.cross(bv);
    let bp = bv.cross(pv);
    assert(lhs * hb == qb * hp + bp * hq);
    if bp > 0 || qb > 0 {
        assert(lhs > 0) by (nonlinear_arith)
            requires
                lhs * hb == qb * hp + bp * hq,
                hb > 0,
                hp > 0,
                hq > 0,
                qb >= 0,
                bp >= 0,
                bp > 0 || qb > 0,
        ;
    } else {
        assert(lhs == 0) by (nonlinear_arith)
            requires
                lhs * hb == qb * hp + bp * hq,
                hb > 0,
                qb == 0,
                bp == 0,
        ;
        lemma_same_way(bv, qv, hv);
        lemma_cross_along(0, 0, bv.x, bv.y, qv.x, qv.y);
        let n = bv.norm_sq();
        let s = bv.dot(qv);
        lemma_weighted_dot(n, qv.x, qv.y, pv.x, pv.y);
        lemma_weighted_dot(s, bv.x, bv.y, pv.x, pv.y);
        assert(qv.x * pv.x + qv.y * pv.y == pv.dot(qv)) by (nonlinear_arith)
            requires
                pv.dot(qv) == pv.x * qv.x + pv.y * qv.y,
        ;
        assert(bv.x * pv.x + bv.y * pv.y == pv.dot(bv)) by (nonlinear_arith)
            requires
                pv.dot(bv) == pv.x * bv.x + pv.y * bv.y,
        ;
        assert(n * pv.dot(qv) == s * pv.dot(bv));
        assert(n > 0) by (nonlinear_arith)
            requires
                n == bv.x * bv.x + bv.y * bv.y,
                hv.x * bv.x + hv.y * bv.y > 0,
        ;
        assert(pv.dot(qv) > 0) by (nonlinear_arith)
            requires
                n * pv.dot(qv) == s * pv.dot(bv),
                s > 0,
                pv.dot(bv) > 0,
                n > 0,
        ;
    }
}

/// Where the points other than `c` all lie on one side of `c`, a point `q`
/// that does not take the place of `b` is as near to the way from `c` to `b`
/// as `b` is.
pub proof fn lemma_nears_keep(c: Point, b: Point, q: Point, hv: Point)
    requires
        hv.dot(b.minus(c)) > 0,
        hv.dot(q.minus(c)) > 0,
        orient(c, b, q) > 0 || (orient(c, b, q) == 0 && dist_sq(q, c) <= dist_sq(b, c)),
    ensures
        nears(c, b, q),
{
    let bv = b.minus(c);
    let qv = q.minus(c);
    if orient(c, b, q) == 0 {
        lemma_same_way(bv, qv, hv);
        assert(qv.dot(bv) == bv.dot(qv)) by (nonlinear_arith)
            requires
                qv.dot(bv) == qv.x * bv.x + qv.y * bv.y,
                bv.dot(qv) == bv.x * qv.x + bv.y * qv.y,
        ;
    }
}


/// Every coordinate of every point of `s` lies within `bound`.
pub open spec fn all_within(s: Seq<Point>, bound: int) -> bool {
    forall|k: int| 0 <= k < s.len() ==> (#[trigger] s[k]).bounded(bound)
}

/// The points other than the first by `x`, then `y`, all lie on one side of
/// it.
pub proof fn lemma_faces_from_lowest(c: Point, s: Seq<Point>)
    requires
        all_within(s, 65536),
        c.bounded(65536),
        forall|k: int| 0 <= k < s.len() ==> lex_le(c, #[trigger] s[k]),
    ensures
        faces(c, Point { x: 131073, y: 1 }, s),
{
    let hv = Point { x: 131073, y: 1 };
    assert forall|k: int| 0 <= k < s.len() && s[k] != c implies hv.dot(
        (#[trigger] s[k]).minus(c),
    ) > 0 by {
        let p = s[k];
        assert(lex_le(c, p));
        assert(p.bounded(65536));
    }
}

/// A vector along `e` and the same way, no longer than `e` and not `e`, is
/// shorter than `e` as measured along it.
proof fn lemma_short_of(e: Point, z: Point)
    requires
        e.cross(z) == 0,
        z.dot(e) > 0,
        z.norm_sq() <= e.norm_sq(),
        z != e,
    ensures
        e.dot(z) < e.norm_sq(),
        e.dot(z) > 0,
{
    let q = e.norm_sq();
    let s = e.dot(z);
    assert(s == z.dot(e)) by (nonlinear_arith)
        requires
            s == e.x * z.x + e.y * z.y,
            z.dot(e) == z.x * e.x + z.y * e.y,
    ;
    lemma_lagrange(e.x, e.y, z.x, z.y);
    assert(q * z.norm_sq() == s * s) by (nonlinear_arith)
        requires
            q * z.norm_sq() - s * s == e.cross(z) * e.cross(z),
            e.cross(z) == 0,
    ;
    assert(q >= 0 && z.norm_sq() >= 0) by (nonlinear_arith)
        requires
            q == e.x * e.x + e.y * e.y,
            z.norm_sq() == z.x * z.x + z.y * z.y,
    ;
    if s >= q {
        assert(z.norm_sq() == q) by (nonlinear_arith)
            requires
                q * z.norm_sq() == s * s,
                s >= q,
                s > 0,
                0 <= z.norm_sq() <= q,
        ;
        lemma_same_vector(z, e);
    }
}

/// The dot product with the vector that is `big` times the left normal of `e`
/// less `e`.
proof fn lemma_tilted(e: Point, u: Point, big: int)
    ensures
        (Point { x: -big * e.y - e.x, y: big * e.x - e.y }).dot(u) == big * e.cross(u) - e.dot(u),
{
    let a = -big * e.y;
    let b = big * e.x;
    vstd::arithmetic::mul::lemma_mul_is_distributive_sub_other_way(u.x, a, e.x);
    vstd::arithmetic::mul::lemma_mul_is_distributive_sub_other_way(u.y, b, e.y);
    vstd::arithmetic::mul::lemma_mul_is_associative(-big, e.y, u.x);
    vstd::arithmetic::mul::lemma_mul_is_associative(big, e.x, u.y);
    vstd::arithmetic::mul::lemma_mul_is_distributive_sub(big, e.x * u.y, e.y * u.x);
    assert((-big) * (e.y * u.x) == -(big * (e.y * u.x))) by (nonlinear_arith);
}

/// The points other than `c` all lie on one side of `c`, where the boundary
/// of the hull leads from `pc` to `c`.
pub proof fn lemma_faces_from_edge(pc: Point, c: Point, s: Seq<Point>)
    requires
        all_within(s, 65536),
        pc.bounded(65536),
        c.bounded(65536),
        leads(pc, c, s),
    ensures
        faces(
            c,
            Point {
                x: -0x100_0000_0000 * (c.y - pc.y) - (c.x - pc.x),
                y: 0x100_0000_0000 * (c.x - pc.x) - (c.y - pc.y),
            },
            s,
        ),
{
    let e = c.minus(pc);
    let big = 0x100_0000_0000int;
    let hv = Point { x: -big * e.y - e.x, y: big * e.x - e.y };
    assert forall|k: int| 0 <= k < s.len() && s[k] != c implies hv.dot(
        (#[trigger] s[k]).minus(c),
    ) > 0 by {
        let p = s[k];
        let u = p.minus(c);
        assert(p.bounded(65536));
        lemma_product_bound(e.x, u.x, 131072, 131072);
        lemma_product_bound(e.y, u.y, 131072, 131072);
        lemma_product_bound(e.x, u.y, 131072, 131072);
        lemma_product_bound(e.y, u.x, 131072, 131072);
        lemma_tilted(e, u, big);
        if p == pc {
            assert(e.cross(u) == 0 && e.dot(u) == -e.norm_sq()) by (nonlinear_arith)
                requires
                    u.x == -e.x,
                    u.y == -e.y,
                    e.cross(u) == e.x * u.y - e.y * u.x,
                    e.dot(u) == e.x * u.x + e.y * u.y,
                    e.norm_sq() == e.x * e.x + e.y * e.y,
            ;
            assert(e.norm_sq() > 0) by (nonlinear_arith)
                requires
                    e.x != 0 || e.y != 0,
                    e.norm_sq() == e.x * e.x + e.y * e.y,
            ;
        } else {
            assert(nears(pc, c, s[k]));
            let z = p.minus(pc);
            lemma_cross_shift(e.x, e.y, u.x, u.y);
            assert(orient(pc, c, p) == e.cross(u));
            if e.cross(u) > 0 {
                assert(big * e.cross(u) >= big) by (nonlinear_arith)
                    requires
                        e.cross(u) >= 1,
                        big > 0,
                ;
            } else {
                assert(e.cross(z) == 0);
                lemma_short_of(e, z);
                assert(e.dot(u) == e.dot(z) - e.norm_sq()) by (nonlinear_arith)
                    requires
                        z.x == u.x + e.x,
                        z.y == u.y + e.y,
                        e.dot(u) == e.x * u.x + e.y * u.y,
                        e.dot(z) == e.x * z.x + e.y * z.y,
                        e.norm_sq() == e.x * e.x + e.y * e.y,
                ;
                assert(big * e.cross(u) == 0) by (nonlinear_arith)
                    requires
                        e.cross(u) == 0,
                ;
            }
        }
    }
}

/// Turning round the first two of three points gives the opposite area.
pub proof fn lemma_orient_flip(a: Point, b: Point, p: Point)
    ensures
        orient(b, a, p) == -orient(a, b, p),
{
    assert(orient(b, a, p) == -orient(a, b, p)) by (nonlinear_arith)
        requires
            orient(b, a, p) == (a.x - b.x) * (p.y - b.y) - (a.y - b.y) * (p.x - b.x),
            orient(a, b, p) == (b.x - a.x) * (p.y - a.y) - (b.y - a.y) * (p.x - a.x),
    ;
}

/// Only from one point does the boundary of the hull lead to a given point.
pub proof fn lemma_one_way_in(x: Point, y: Point, w: Point, s: Seq<Point>)
    requires
        leads(x, w, s),
        leads(y, w, s),
        s.contains(x),
        s.contains(y),
    ensures
        x == y,
{
    if x != y {
        let kx = choose|k: int| 0 <= k < s.len() && s[k] == x;
        let ky = choose|k: int| 0 <= k < s.len() && s[k] == y;
        assert(nears(x, w, s[ky]));
        assert(nears(y, w, s[kx]));
        let e = w.minus(x);
        let u = y.minus(x);
        assert(orient(y, w, x) == -orient(x, w, y)) by (nonlinear_arith)
            requires
                orient(y, w, x) == (w.x - y.x) * (x.y - y.y) - (w.y - y.y) * (x.x - y.x),
                orient(x, w, y) == (w.x - x.x) * (y.y - x.y) - (w.y - x.y) * (y.x - x.x),
        ;
        assert(e.cross(u) == 0);
        let q = e.norm_sq();
        let sd = e.dot(u);
        let un = u.norm_sq();
        assert(sd == u.dot(e)) by (nonlinear_arith)
            requires
                sd == e.x * u.x + e.y * u.y,
                u.dot(e) == u.x * e.x + u.y * e.y,
        ;
        assert(dist_sq(y, x) == un);
        assert(dist_sq(w, x) == q);
        let a = x.minus(y);
        let b = w.minus(y);
        assert(a.dot(b) == un - sd) by (nonlinear_arith)
            requires
                a.x == -u.x,
                a.y == -u.y,
                b.x == e.x - u.x,
                b.y == e.y - u.y,
                a.dot(b) == a.x * b.x + a.y * b.y,
                un == u.x * u.x + u.y * u.y,
                sd == e.x * u.x + e.y * u.y,
        ;
        lemma_lagrange(e.x, e.y, u.x, u.y);
        assert(q * un == sd * sd) by (nonlinear_arith)
            requires
                q * un - sd * sd == e.cross(u) * e.cross(u),
                e.cross(u) == 0,
        ;
        assert(un <= sd) by (nonlinear_arith)
            requires
                q * un == sd * sd,
                0 <= un <= q,
                sd > 0,
        ;
    }
}

/// A point strictly inside an edge of the boundary of the hull is not a point
/// that the boundary leads through: from such a point `x`, on the way from
/// `c` to `w`, no way has both `c` and `w` as near as the boundary asks.
pub proof fn lemma_not_inside_edge(c: Point, w: Point, x: Point, y: Point)
    requires
        nears(c, w, x),
        orient(c, w, x) == 0,
        x != w,
        x != c,
        nears(x, y, c),
    ensures
        !nears(x, y, w),
{
    let e = w.minus(c);
    let u = x.minus(c);
    let t = y.minus(x);
    let a = c.minus(x);
    let b = w.minus(x);
    assert(e.cross(u) == 0);
    lemma_short_of(e, u);
    let q = e.norm_sq();
    let s = e.dot(u);
    lemma_cross_along(t.x, t.y, e.x, e.y, u.x, u.y);
    let te = t.cross(e);
    let tu = t.cross(u);
    assert(q * tu == s * te);
    assert(t.cross(a) == -tu && t.cross(b) == te - tu) by (nonlinear_arith)
        requires
            a.x == -u.x,
            a.y == -u.y,
            b.x == e.x - u.x,
            b.y == e.y - u.y,
            t.cross(a) == t.x * a.y - t.y * a.x,
            t.cross(b) == t.x * b.y - t.y * b.x,
            tu == t.x * u.y - t.y * u.x,
            te == t.x * e.y - t.y * e.x,
    ;
    assert(orient(x, y, c) == t.cross(a));
    assert(orient(x, y, w) == t.cross(b));
    assert(te <= 0) by (nonlinear_arith)
        requires
            q * tu == s * te,
            tu <= 0,
            s > 0,
            q > 0,
    ;
    if nears(x, y, w) {
        assert(q * (te - tu) == (q - s) * te) by (nonlinear_arith)
            requires
                q * tu == s * te,
        ;
        assert(te >= 0) by (nonlinear_arith)
            requires
                q * (te - tu) == (q - s) * te,
                te - tu >= 0,
                q - s > 0,
                q > 0,
        ;
        assert(tu == 0) by (nonlinear_arith)
            requires
                q * tu == s * te,
                te == 0,
                q > 0,
        ;
        let td = t.dot(e);
        let tud = t.dot(u);
        lemma_weighted_dot(q, u.x, u.y, t.x, t.y);
        lemma_weighted_dot(s, e.x, e.y, t.x, t.y);
        assert(u.x * t.x + u.y * t.y == tud && e.x * t.x + e.y * t.y == td) by (nonlinear_arith)
            requires
                tud == t.x * u.x + t.y * u.y,
                td == t.x * e.x + t.y * e.y,
        ;
        assert(q * tud == s * td);
        assert(a.dot(t) == -tud && b.dot(t) == td - tud) by (nonlinear_arith)
            requires
                a.x == -u.x,
                a.y == -u.y,
                b.x == e.x - u.x,
                b.y == e.y - u.y,
                a.dot(t) == a.x * t.x + a.y * t.y,
                b.dot(t) == b.x * t.x + b.y * t.y,
                tud == t.x * u.x + t.y * u.y,
                td == t.x * e.x + t.y * e.y,
        ;
        assert(td < 0) by (nonlinear_arith)
            requires
                q * tud == s * td,
                tud < 0,
                s > 0,
                q > 0,
        ;
        assert(q * (td - tud) == (q - s) * td) by (nonlinear_arith)
            requires
                q * tud == s * td,
        ;
        assert(td - tud < 0) by (nonlinear_arith)
            requires
                q * (td - tud) == (q - s) * td,
                td < 0,
                q - s > 0,
                q > 0,
        ;
    }
}

/// The vertices `h` are different points.
pub open spec fn distinct(h: Seq<Point>) -> bool {
    forall|i: int, j: int| 0 <= i < j < h.len() ==> h[i] != h[j]
}

/// The boundary of the hull of `s` leads from each vertex of `h` to the next.
pub open spec fn leads_around(h: Seq<Point>, s: Seq<Point>) -> bool {
    forall|i: int| 0 <= i < h.len() ==> #[trigger] leads(h[i], h[next_index(i, h.len() as int)], s)
}

/// At least three different points of `s` that the boundary of the hull leads
/// around are the hull.
pub proof fn lemma_walk_is_hull(h: Seq<Point>, s: Seq<Point>)
    requires
        h.len() >= 3,
        distinct(h),
        leads_around(h, s),
        drawn_from(h, s),
    ensures
        is_hull(h, s),
{
    let n = h.len() as int;
    assert forall|i: int, k: int| 0 <= i < h.len() && 0 <= k < s.len() implies #[trigger] orient(
        h[i],
        h[next_index(i, n)],
        s[k],
    ) >= 0 by {
        assert(leads(h[i], h[next_index(i, n)], s));
        if s[k] != h[i] {
            assert(nears(h[i], h[next_index(i, n)], s[k]));
        } else {
            let c = h[i];
            let w = h[next_index(i, n)];
            assert(orient(c, w, c) == 0) by (nonlinear_arith)
                requires
                    orient(c, w, c) == (w.x - c.x) * (c.y - c.y) - (w.y - c.y) * (c.x - c.x),
            ;
        }
    }
    assert forall|i: int, j: int|
        0 <= i < h.len() && 0 <= j < h.len() && j != i && j != next_index(i, n) implies #[trigger] orient(
        h[i],
        h[next_index(i, n)],
        h[j],
    ) > 0 by {
        let i1 = next_index(i, n);
        let j1 = next_index(j, n);
        let c = h[i];
        let w = h[i1];
        let x = h[j];
        let y = h[j1];
        assert(leads(c, w, s));
        assert(leads(x, y, s));
        assert(s.contains(x) && s.contains(c) && s.contains(w));
        let kx = choose|k: int| 0 <= k < s.len() && s[k] == x;
        let kc = choose|k: int| 0 <= k < s.len() && s[k] == c;
        let kw = choose|k: int| 0 <= k < s.len() && s[k] == w;
        assert(x != c && x != w) by {
            if i < j {
                assert(h[i] != h[j]);
            } else {
                assert(h[j] != h[i]);
            }
            if i1 < j {
                assert(h[i1] != h[j]);
            } else {
                assert(h[j] != h[i1]);
            }
        }
        assert(nears(c, w, s[kx]));
        assert(nears(x, y, s[kc]));
        assert(nears(x, y, s[kw]));
        if orient(c, w, x) == 0 {
            lemma_not_inside_edge(c, w, x, y);
        }
    }
}

/// Where the boundary of the hull leads from one point to another and back,
/// all points lie on the line through the two.
pub proof fn lemma_there_and_back(v0: Point, v1: Point, s: Seq<Point>)
    requires
        leads(v0, v1, s),
        leads(v1, v0, s),
    ensures
        collinear(s),
{
    let e = v1.minus(v0);
    assert forall|k: int| 0 <= k < s.len() implies e.cross((#[trigger] s[k]).minus(v0)) == 0 by {
        let p = s[k];
        lemma_orient_flip(v0, v1, p);
        if p == v0 {
            assert(e.cross(p.minus(v0)) == 0) by (nonlinear_arith)
                requires
                    p.minus(v0).x == 0,
                    p.minus(v0).y == 0,
                    e.cross(p.minus(v0)) == e.x * p.minus(v0).y - e.y * p.minus(v0).x,
            ;
        } else if p == v1 {
            assert(e.cross(e) == 0) by (nonlinear_arith)
                requires
                    e.cross(e) == e.x * e.y - e.y * e.x,
            ;
        } else {
            assert(nears(v0, v1, s[k]));
            assert(nears(v1, v0, s[k]));
        }
    }
    lemma_line_collinear(v0, e, s);
}

/// Points that all lie on the line through `o` along `e` lie on one line.
pub proof fn lemma_line_collinear(o: Point, e: Point, s: Seq<Point>)
    requires
        e.x != 0 || e.y != 0,
        forall|k: int| 0 <= k < s.len() ==> e.cross((#[trigger] s[k]).minus(o)) == 0,
    ensures
        collinear(s),
{
    let q = e.norm_sq();
    assert(q > 0) by (nonlinear_arith)
        requires
            e.x != 0 || e.y != 0,
            q == e.x * e.x + e.y * e.y,
    ;
    assert forall|i: int, j: int, k: int|
        0 <= i < s.len() && 0 <= j < s.len() && 0 <= k < s.len() implies #[trigger] orient(
        s[i],
        s[j],
        s[k],
    ) == 0 by {
        let a = s[i].minus(o);
        let b = s[j].minus(o);
        let c = s[k].minus(o);
        let g = s[j].minus(s[i]);
        let u = s[k].minus(s[i]);
        assert(e.cross(a) == 0 && e.cross(b) == 0 && e.cross(c) == 0);
        assert(e.cross(g) == 0 && e.cross(u) == 0) by (nonlinear_arith)
            requires
                e.x * a.y - e.y * a.x == 0,
                e.x * b.y - e.y * b.x == 0,
                e.x * c.y - e.y * c.x == 0,
                g.x == b.x - a.x,
                g.y == b.y - a.y,
                u.x == c.x - a.x,
                u.y == c.y - a.y,
                e.cross(g) == e.x * g.y - e.y * g.x,
                e.cross(u) == e.x * u.y - e.y * u.x,
        ;
        lemma_cross_along(g.x, g.y, e.x, e.y, u.x, u.y);
        assert(g.cross(e) == 0) by (nonlinear_arith)
            requires
                e.x * g.y - e.y * g.x == 0,
                g.cross(e) == g.x * e.y - g.y * e.x,
        ;
        assert(g.cross(u) == 0) by (nonlinear_arith)
            requires
                q * g.cross(u) == e.dot(u) * g.cross(e),
                g.cross(e) == 0,
                q > 0,
        ;
    }
}

/// Of more numbers than `n`, all from 0 to `n` and less than `n`, two are the
/// same.
pub proof fn lemma_two_alike(f: Seq<int>, n: int)
    requires
        n >= 0,
        f.len() > n,
        forall|i: int| 0 <= i < f.len() ==> 0 <= #[trigger] f[i] < n,
    ensures
        exists|i: int, j: int| 0 <= i < j < f.len() && f[i] == f[j],
    decreases n,
{
    if n == 0 {
        let x = f[0];
        assert(0 <= x && x < n);
    } else if exists|i: int| 0 <= i < f.len() && f[i] == n - 1 {
        let i = choose|i: int| 0 <= i < f.len() && f[i] == n - 1;
        if exists|j: int| 0 <= j < f.len() && j != i && f[j] == n - 1 {
            let j = choose|j: int| 0 <= j < f.len() && j != i && f[j] == n - 1;
            if i < j {
                assert(f[i] == f[j]);
            } else {
                assert(f[j] == f[i]);
            }
        } else {
            let g = Seq::new(
                (f.len() - 1) as nat,
                |k: int|
                    if k < i {
                        f[k]
                    } else {
                        f[k + 1]
                    },
            );
            assert forall|k: int| 0 <= k < g.len() implies 0 <= #[trigger] g[k] < n - 1 by {
                if k < i {
                    assert(f[k] != n - 1);
                } else {
                    assert(f[k + 1] != n - 1);
                }
            }
            lemma_two_alike(g, n - 1);
            let (a, b) = choose|a: int, b: int| 0 <= a < b < g.len() && g[a] == g[b];
            let a2 = if a < i {
                a
            } else {
                a + 1
            };
            let b2 = if b < i {
                b
            } else {
                b + 1
            };
            assert(f[a2] == f[b2]);
            assert(0 <= a2 < b2 < f.len());
        }
    } else {
        assert forall|k: int| 0 <= k < f.len() implies 0 <= #[trigger] f[k] < n - 1 by {
            assert(f[k] != n - 1);
        }
        lemma_two_alike(f, n - 1);
    }
}


/// What it means that the boundary of the hull leads from `c` to `w`.
pub proof fn lemma_leads_means(c: Point, w: Point, s: Seq<Point>)
    ensures
        leads(c, w, s) <==> w != c && forall|k: int|
            0 <= k < s.len() && s[k] != c ==> #[trigger] nears(c, w, s[k]),
{
}

/// A point of `s` other than `c` lies on the side of `c` that `hv` points to,
/// where all of them do.
pub proof fn lemma_faces_at(c: Point, hv: Point, s: Seq<Point>, k: int)
    requires
        faces(c, hv, s),
        0 <= k < s.len(),
        s[k] != c,
    ensures
        hv.dot(s[k].minus(c)) > 0,
{
}


} // verus!
