//! The mathematical model of placed shapes, and what it means for two of them
//! to touch or overlap. Shapes are closed sets: shapes that only touch meet.

use vstd::prelude::*;
use crate::poly::next_index;
use crate::vec2::{dist_sq, orient, Point};

verus! {

/// A shape in its place in the world.
pub enum Figure {
    /// The disc of radius `r` around `c`.
    Disc { c: Point, r: int },
    /// The axis-aligned rectangle between the corners `lo` and `hi`.
    Rect { lo: Point, hi: Point },
    /// Every point within `r` of the segment from `a` to `b`.
    Pill { a: Point, b: Point, r: int },
    /// The polygon with the vertices `v`, counter-clockwise.
    Hull { v: Seq<Point> },
}

/// The four corners of a rectangle, counter-clockwise from `lo`.
pub open spec fn corners(lo: Point, hi: Point) -> Seq<Point> {
    seq![
        Point { x: lo.x, y: lo.y },
        Point { x: hi.x, y: lo.y },
        Point { x: hi.x, y: hi.y },
        Point { x: lo.x, y: hi.y },
    ]
}

/// The distance of `p` from the segment from `a` to `b` is at most `r`.
///
/// The foot of `p` on the line through the segment is compared with the two
/// ends: before `a` the distance is that from `a`, behind `b` that from `b`,
/// and between them that from the line.
pub open spec fn near_segment(a: Point, b: Point, p: Point, r: int) -> bool {
    let e = b.minus(a);
    let w = p.minus(a);
    let t = w.dot(e);
    if t <= 0 {
        w.norm_sq() <= r * r
    } else if t >= e.norm_sq() {
        p.minus(b).norm_sq() <= r * r
    } else {
        w.cross(e) * w.cross(e) <= r * r * e.norm_sq()
    }
}

/// Two numbers have opposite strict signs.
pub open spec fn opposite(x: int, y: int) -> bool {
    (x > 0 && y < 0) || (x < 0 && y > 0)
}

/// The segments `ab` and `cd` cross at a point inside both.
pub open spec fn segments_cross(a: Point, b: Point, c: Point, d: Point) -> bool {
    opposite(orient(a, b, c), orient(a, b, d)) && opposite(orient(c, d, a), orient(c, d, b))
}

/// The distance of the segments `ab` and `cd` is at most `r`: they cross, or
/// an end of one is within `r` of the other.
pub open spec fn segments_near(a: Point, b: Point, c: Point, d: Point, r: int) -> bool {
    segments_cross(a, b, c, d) || near_segment(c, d, a, r) || near_segment(c, d, b, r)
        || near_segment(a, b, c, r) || near_segment(a, b, d, r)
}

/// Twice the signed area of the triangle of edge `i` of `h` and the point `q`:
/// positive where `q` lies on the inner side of the edge, negative on the
/// outer side.
pub open spec fn side(h: Seq<Point>, i: int, q: Point) -> int {
    orient(h[i], h[next_index(i, h.len() as int)], q)
}

/// The outward normal of edge `i` of the polygon `v`, with the edge's length.
pub open spec fn edge_normal(v: Seq<Point>, i: int) -> Point {
    v[next_index(i, v.len() as int)].minus(v[i]).perp()
}

/// The polygon `h` has an interior: one of its vertices lies strictly on the
/// inner side of one of its edges. A polygon whose vertices lie on one line
/// has none.
pub open spec fn has_area(h: Seq<Point>) -> bool {
    exists|i: int, j: int|
        0 <= i < h.len() && 0 <= j < h.len() && #[trigger] side(h, i, h[j]) > 0
}

/// `q` lies on the outer side of no edge of `h`.
pub open spec fn enclosed(h: Seq<Point>, q: Point) -> bool {
    forall|i: int| 0 <= i < h.len() ==> #[trigger] side(h, i, q) >= 0
}

/// `q` lies in the polygon `h` or on its boundary: the polygon has an
/// interior, and `q` lies on the outer side of no edge.
pub open spec fn inside(h: Seq<Point>, q: Point) -> bool {
    has_area(h) && enclosed(h, q)
}

/// Every vertex of `g` lies strictly on the outer side of edge `i` of `h`:
/// the normal of that edge is a separating axis.
pub open spec fn separates(h: Seq<Point>, i: int, g: Seq<Point>) -> bool {
    forall|j: int| 0 <= j < g.len() ==> side(h, i, #[trigger] g[j]) < 0
}

/// An edge of `h` separates `g` from `h`.
pub open spec fn apart(h: Seq<Point>, g: Seq<Point>) -> bool {
    exists|i: int| 0 <= i < h.len() && #[trigger] separates(h, i, g)
}

/// How far `x` lies outside the interval from `lo` to `hi`.
pub open spec fn overshoot(x: int, lo: int, hi: int) -> int {
    if x < lo {
        lo - x
    } else if x > hi {
        x - hi
    } else {
        0
    }
}

/// Two discs meet: the distance of the centres is at most the sum of the
/// radii.
pub open spec fn discs_meet(c1: Point, r1: int, c2: Point, r2: int) -> bool {
    dist_sq(c1, c2) <= (r1 + r2) * (r1 + r2)
}

/// A disc meets a rectangle: the point of the rectangle nearest to the centre
/// is within the radius.
pub open spec fn disc_meets_rect(c: Point, r: int, lo: Point, hi: Point) -> bool {
    let dx = overshoot(c.x, lo.x, hi.x);
    let dy = overshoot(c.y, lo.y, hi.y);
    dx * dx + dy * dy <= r * r
}

/// A disc meets a pill: the centre is within the sum of the radii of the
/// segment.
pub open spec fn disc_meets_pill(c: Point, r: int, a: Point, b: Point, rp: int) -> bool {
    near_segment(a, b, c, r + rp)
}

/// A disc meets a polygon: the centre lies in the polygon, or within the
/// radius of one of its edges.
pub open spec fn disc_meets_hull(c: Point, r: int, v: Seq<Point>) -> bool {
    inside(v, c) || exists|i: int|
        0 <= i < v.len() && #[trigger] near_segment(v[i], v[next_index(i, v.len() as int)], c, r)
}

/// Two rectangles meet: their extents overlap in both coordinates.
pub open spec fn rects_meet(lo1: Point, hi1: Point, lo2: Point, hi2: Point) -> bool {
    lo1.x <= hi2.x && lo2.x <= hi1.x && lo1.y <= hi2.y && lo2.y <= hi1.y
}

/// Two pills meet: the distance of the segments is at most the sum of the
/// radii.
pub open spec fn pills_meet(a1: Point, b1: Point, r1: int, a2: Point, b2: Point, r2: int) -> bool {
    segments_near(a1, b1, a2, b2, r1 + r2)
}

/// A pill meets a polygon: an end of the segment lies in the polygon, or the
/// segment is within the radius of one of its edges.
pub open spec fn pill_meets_hull(a: Point, b: Point, r: int, v: Seq<Point>) -> bool {
    inside(v, a) || inside(v, b) || exists|i: int|
        0 <= i < v.len() && #[trigger] segments_near(
            a,
            b,
            v[i],
            v[next_index(i, v.len() as int)],
            r,
        )
}

/// Two polygons meet: no edge of either is a separating axis.
pub open spec fn hulls_meet(h: Seq<Point>, g: Seq<Point>) -> bool {
    !apart(h, g) && !apart(g, h)
}

/// Two placed shapes touch or overlap. Each of the ten pairs of kinds has its
/// own test; a rectangle stands for the polygon of its corners where the other
/// shape is a pill or a polygon.
pub open spec fn meets(f: Figure, g: Figure) -> bool {
    match (f, g) {
        (Figure::Disc { c: c1, r: r1 }, Figure::Disc { c: c2, r: r2 }) => discs_meet(
            c1,
            r1,
            c2,
            r2,
        ),
        (Figure::Disc { c, r }, Figure::Rect { lo, hi }) => disc_meets_rect(c, r, lo, hi),
        (Figure::Rect { lo, hi }, Figure::Disc { c, r }) => disc_meets_rect(c, r, lo, hi),
        (Figure::Disc { c, r }, Figure::Pill { a, b, r: rp }) => disc_meets_pill(c, r, a, b, rp),
        (Figure::Pill { a, b, r: rp }, Figure::Disc { c, r }) => disc_meets_pill(c, r, a, b, rp),
        (Figure::Disc { c, r }, Figure::Hull { v }) => disc_meets_hull(c, r, v),
        (Figure::Hull { v }, Figure::Disc { c, r }) => disc_meets_hull(c, r, v),
        (Figure::Rect { lo: lo1, hi: hi1 }, Figure::Rect { lo: lo2, hi: hi2 }) => rects_meet(
            lo1,
            hi1,
            lo2,
            hi2,
        ),
        (Figure::Rect { lo, hi }, Figure::Pill { a, b, r }) => pill_meets_hull(
            a,
            b,
            r,
            corners(lo, hi),
        ),
        (Figure::Pill { a, b, r }, Figure::Rect { lo, hi }) => pill_meets_hull(
            a,
            b,
            r,
            corners(lo, hi),
        ),
        (Figure::Rect { lo, hi }, Figure::Hull { v }) => hulls_meet(corners(lo, hi), v),
        (Figure::Hull { v }, Figure::Rect { lo, hi }) => hulls_meet(corners(lo, hi), v),
        (Figure::Pill { a: a1, b: b1, r: r1 }, Figure::Pill { a: a2, b: b2, r: r2 }) => pills_meet(
            a1,
            b1,
            r1,
            a2,
            b2,
            r2,
        ),
        (Figure::Pill { a, b, r }, Figure::Hull { v }) => pill_meets_hull(a, b, r, v),
        (Figure::Hull { v }, Figure::Pill { a, b, r }) => pill_meets_hull(a, b, r, v),
        (Figure::Hull { v: h }, Figure::Hull { v: g }) => hulls_meet(h, g),
    }
}

/// Whether two shapes meet does not depend on the order in which they are
/// given.
pub proof fn lemma_meets_symmetric(f: Figure, g: Figure)
    ensures
        meets(f, g) == meets(g, f),
{
    match (f, g) {
        (Figure::Disc { c: c1, r: r1 }, Figure::Disc { c: c2, r: r2 }) => {
            assert(dist_sq(c1, c2) == dist_sq(c2, c1)) by (nonlinear_arith);
            assert((r1 + r2) * (r1 + r2) == (r2 + r1) * (r2 + r1)) by (nonlinear_arith);
        },
        (Figure::Pill { a: a1, b: b1, r: r1 }, Figure::Pill { a: a2, b: b2, r: r2 }) => {
            assert(r1 + r2 == r2 + r1);
        },
        _ => {},
    }
}

} // verus!
