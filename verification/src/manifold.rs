//! Contact manifolds: how two shapes that collide touch each other.

use vstd::prelude::*;
use crate::collide::{
    aabb_to_aabb, capsule_to_capsule, capsule_to_poly, circle_to_aabb, circle_to_capsule,
    circle_to_circle, circle_to_poly, contains, poly_to_poly, segments_crossing, side_of, Body,
    Solid,
};
use crate::model::{
    corners, disc_meets_hull, disc_meets_pill, disc_meets_rect, discs_meet, edge_normal,
    hulls_meet, inside, meets, pill_meets_hull, pills_meet, rects_meet, segments_cross, side,
    Figure,
};
use crate::poly::{next_index, Poly};
use crate::scalar::{
    div_toward_zero, floor_sqrt, isqrt, lemma_floor_sqrt_exists, lemma_product_bound,
    lemma_square_monotone, lemma_trunc_div_bound, trunc_div, LIMIT, UNIT,
};
use crate::shapes::{Capsule, Circle, AABB};
use crate::vec2::{
    cross, delta, dot, mix, mix3, norm_sq, stretch, stretch_by, unit, unit_of, Point, Vec2, AREA,
};

verus! {

/// Contains the data necessary for collision resolution: up to two points of
/// contact with the depth of the overlap at each, and the normal, of length
/// `UNIT`, that points from the first shape to the second. Only the first
/// `count` depths and points mean anything.
#[derive(Clone, Copy, Debug)]
pub struct Manifold {
    pub count: i32,
    pub depths: [i64; 2],
    pub contact_points: [Vec2; 2],
    pub n: Vec2,
}

/// How two shapes touch: the model of `Manifold`. `d0` and `p0` are the depth
/// and the point of the first contact, `d1` and `p1` those of the second;
/// those of a contact that there is not are zero.
pub struct Touch {
    pub count: int,
    pub d0: int,
    pub d1: int,
    pub p0: Point,
    pub p1: Point,
    pub n: Point,
}

impl View for Manifold {
    type V = Touch;

    open spec fn view(&self) -> Touch {
        let zero = Point { x: 0, y: 0 };
        Touch {
            count: self.count as int,
            d0: if self.count >= 1 {
                self.depths[0] as int
            } else {
                0
            },
            d1: if self.count >= 2 {
                self.depths[1] as int
            } else {
                0
            },
            p0: if self.count >= 1 {
                self.contact_points[0]@
            } else {
                zero
            },
            p1: if self.count >= 2 {
                self.contact_points[1]@
            } else {
                zero
            },
            n: self.n@,
        }
    }
}

impl Manifold {
    /// The number of points of contact: 0 where the shapes do not collide.
    pub fn count(self) -> (n: i32)
        ensures
            n == self.count,
    {
        self.count
    }

    /// The depth of the overlap at each point of contact.
    pub fn depths(self) -> (d: [i64; 2])
        ensures
            d == self.depths,
    {
        self.depths
    }

    /// The points of contact.
    pub fn contact_points(self) -> (p: [Vec2; 2])
        ensures
            p == self.contact_points,
    {
        self.contact_points
    }

    /// Points from the first shape to the second
    pub fn normal(self) -> (n: Vec2)
        ensures
            n == self.n,
    {
        self.n
    }

    /// The manifold of shapes that do not collide.
    pub fn none() -> (m: Manifold)
        ensures
            m@ == no_touch(),
    {
        let zero = Vec2 { x: 0, y: 0 };
        Manifold { count: 0, depths: [0, 0], contact_points: [zero, zero], n: zero }
    }

    /// The manifold of one point of contact.
    pub fn one(p: Vec2, depth: i64, n: Vec2) -> (m: Manifold)
        ensures
            m@ == one_touch(p@, depth as int, n@),
    {
        Manifold { count: 1, depths: [depth, 0], contact_points: [p, p], n }
    }

    /// The manifold with the opposite normal: that of the same two shapes in
    /// the other order.
    pub fn flip(self) -> (m: Manifold)
        requires
            self.n.x > i64::MIN,
            self.n.y > i64::MIN,
        ensures
            m@ == flipped(self@),
    {
        Manifold {
            count: self.count,
            depths: self.depths,
            contact_points: self.contact_points,
            n: Vec2 { x: -self.n.x, y: -self.n.y },
        }
    }
}

/// No contact.
pub open spec fn no_touch() -> Touch {
    let zero = Point { x: 0, y: 0 };
    Touch { count: 0, d0: 0, d1: 0, p0: zero, p1: zero, n: zero }
}

/// One point of contact.
pub open spec fn one_touch(p: Point, depth: int, n: Point) -> Touch {
    Touch { count: 1, d0: depth, d1: 0, p0: p, p1: Point { x: 0, y: 0 }, n }
}

/// The same contact seen from the other shape: the normal is the opposite.
pub open spec fn flipped(t: Touch) -> Touch {
    Touch { count: t.count, d0: t.d0, d1: t.d1, p0: t.p0, p1: t.p1, n: t.n.neg() }
}

/// The larger of a number and zero.
pub open spec fn at_least_zero(x: int) -> int {
    if x < 0 {
        0
    } else {
        x
    }
}

/// The nearest points of two shapes: the point `a` of the first and the point
/// `b` of the second, each coordinate rounded toward zero, the direction `dir`
/// from the first to the second, which is exact (and the zero vector where
/// the points are the same), and the square `num / den` of their distance.
pub struct Reach {
    pub a: Point,
    pub b: Point,
    pub dir: Point,
    pub num: int,
    pub den: int,
}

/// The distance of the nearest points of two shapes, rounded down.
pub open spec fn reach_length(r: Reach) -> int {
    floor_sqrt(r.num / r.den)
}

/// The nearest points of two points.
pub open spec fn centre_reach(c1: Point, c2: Point) -> Reach {
    Reach { a: c1, b: c2, dir: c2.minus(c1), num: c2.minus(c1).norm_sq(), den: 1 }
}

/// The nearest points of the point `p` and the segment from `a` to `b`: the
/// point itself and the end of the segment that its foot lies beyond, or its
/// foot, to which the way goes straight across the segment. For a point on
/// the segment the direction is that across the segment, to its right.
pub open spec fn point_reach(p: Point, a: Point, b: Point) -> Reach {
    let e = b.minus(a);
    let w = p.minus(a);
    let t = w.dot(e);
    let c = e.cross(w);
    if t <= 0 {
        Reach {
            a: p,
            b: a,
            dir: if a == p {
                e.perp()
            } else {
                a.minus(p)
            },
            num: a.minus(p).norm_sq(),
            den: 1,
        }
    } else if t >= e.norm_sq() {
        Reach {
            a: p,
            b: b,
            dir: if b == p {
                e.perp()
            } else {
                b.minus(p)
            },
            num: b.minus(p).norm_sq(),
            den: 1,
        }
    } else {
        Reach {
            a: p,
            b: mix3(a, e.norm_sq() - t, b, t, a, 0),
            dir: if c >= 0 {
                e.perp()
            } else {
                e.perp().neg()
            },
            num: c * c,
            den: e.norm_sq(),
        }
    }
}

/// The same nearest points with the two shapes in the other order.
pub open spec fn turned(r: Reach) -> Reach {
    Reach { a: r.b, b: r.a, dir: r.dir.neg(), num: r.num, den: r.den }
}

/// The nearer of two pairs of points; of two that are as near, the first.
pub open spec fn nearer_reach(x: Reach, y: Reach) -> Reach {
    if y.num * x.den < x.num * y.den {
        y
    } else {
        x
    }
}

/// The nearest points of the segments `a1 b1` and `a2 b2` that do not cross:
/// of each end and the point of the other segment nearest to it, the pair that
/// is nearest, taken in the order `a1`, `b1`, `a2`, `b2`.
pub open spec fn seg_reach(a1: Point, b1: Point, a2: Point, b2: Point) -> Reach {
    nearer_reach(
        nearer_reach(
            nearer_reach(point_reach(a1, a2, b2), point_reach(b1, a2, b2)),
            turned(point_reach(a2, a1, b1)),
        ),
        turned(point_reach(b2, a1, b1)),
    )
}

/// The contact of two shapes that are round about their nearest points `r`,
/// with the radii `ra` and `rb`: the normal is the direction from the first
/// point to the second, the depth is what the sum of the radii exceeds the
/// distance of the points by, and the point of contact lies on the second
/// shape, toward the first.
pub open spec fn reach_touch(r: Reach, ra: int, rb: int) -> Touch {
    let n = unit(r.dir);
    one_touch(r.b.minus(stretch(n, rb)), at_least_zero(ra + rb - reach_length(r)), n)
}

/// The contact of two discs.
pub open spec fn discs_touch(c1: Point, r1: int, c2: Point, r2: int) -> Touch {
    if discs_meet(c1, r1, c2, r2) {
        reach_touch(centre_reach(c1, c2), r1, r2)
    } else {
        no_touch()
    }
}

/// The nearest points of two shapes, in machine numbers.
#[derive(Clone, Copy)]
pub struct Link {
    pub a: Vec2,
    pub b: Vec2,
    pub dir: Vec2,
    pub num: i128,
    pub den: i128,
}

impl View for Link {
    type V = Reach;

    open spec fn view(&self) -> Reach {
        Reach { a: self.a@, b: self.b@, dir: self.dir@, num: self.num as int, den: self.den as int }
    }
}

impl Link {
    /// Both points lie in the world, the direction lies within `SPAN`, and the
    /// squared distance is a fraction of numbers in range.
    pub open spec fn wf(self) -> bool {
        &&& self.a.in_world()
        &&& self.b.in_world()
        &&& self.dir.in_span()
        &&& 0 <= self.num <= AREA * AREA
        &&& 1 <= self.den <= AREA
    }
}

/// The nearest points of two points.
pub fn centre_link(c1: Vec2, c2: Vec2) -> (r: Link)
    requires
        c1.in_world(),
        c2.in_world(),
    ensures
        r@ == centre_reach(c1@, c2@),
        r.wf(),
{
    let d = delta(c2, c1);
    proof {
        lemma_product_bound(AREA as int, AREA as int, AREA as int, AREA as int);
    }
    Link { a: c1, b: c2, dir: d, num: norm_sq(d), den: 1 }
}

/// The nearest points of a point and a segment.
pub fn point_link(p: Vec2, a: Vec2, b: Vec2) -> (r: Link)
    requires
        p.in_world(),
        a.in_world(),
        b.in_world(),
    ensures
        r@ == point_reach(p@, a@, b@),
        r.wf(),
{
    let e = delta(b, a);
    let w = delta(p, a);
    let t = dot(w, e);
    let ee = norm_sq(e);
    proof {
        lemma_product_bound(AREA as int, AREA as int, AREA as int, AREA as int);
    }
    let right = Vec2 { x: e.y, y: -e.x };
    if t <= 0 {
        let d = delta(a, p);
        Link {
            a: p,
            b: a,
            dir: if a == p {
                right
            } else {
                d
            },
            num: norm_sq(d),
            den: 1,
        }
    } else if t >= ee {
        let d = delta(b, p);
        Link {
            a: p,
            b,
            dir: if b == p {
                right
            } else {
                d
            },
            num: norm_sq(d),
            den: 1,
        }
    } else {
        let c = cross(e, w);
        proof {
            lemma_product_bound(c as int, c as int, AREA as int, AREA as int);
            assert(c * c >= 0) by (nonlinear_arith);
        }
        Link {
            a: p,
            b: mix(a, ee - t, b, t, a, 0),
            dir: if c >= 0 {
                right
            } else {
                Vec2 { x: -e.y, y: e.x }
            },
            num: c * c,
            den: ee,
        }
    }
}

/// The same nearest points with the two shapes in the other order.
pub fn turned_link(r: Link) -> (t: Link)
    requires
        r.wf(),
    ensures
        t@ == turned(r@),
        t.wf(),
{
    Link { a: r.b, b: r.a, dir: Vec2 { x: -r.dir.x, y: -r.dir.y }, num: r.num, den: r.den }
}

/// The nearer of two pairs of points.
pub fn nearer_link(x: Link, y: Link) -> (r: Link)
    requires
        x.wf(),
        y.wf(),
    ensures
        r@ == nearer_reach(x@, y@),
        r == x || r == y,
{
    proof {
        lemma_product_bound(y.num as int, x.den as int, AREA * AREA, AREA as int);
        lemma_product_bound(x.num as int, y.den as int, AREA * AREA, AREA as int);
    }
    if y.num * x.den < x.num * y.den {
        y
    } else {
        x
    }
}

/// The nearest points of two segments that do not cross.
pub fn seg_link(a1: Vec2, b1: Vec2, a2: Vec2, b2: Vec2) -> (r: Link)
    requires
        a1.in_world(),
        b1.in_world(),
        a2.in_world(),
        b2.in_world(),
    ensures
        r@ == seg_reach(a1@, b1@, a2@, b2@),
        r.wf(),
{
    let p0 = point_link(a1, a2, b2);
    let p1 = point_link(b1, a2, b2);
    let p2 = turned_link(point_link(a2, a1, b1));
    let p3 = turned_link(point_link(b2, a1, b1));
    nearer_link(nearer_link(nearer_link(p0, p1), p2), p3)
}

/// The distance of the nearest points of two shapes, rounded down.
fn link_length(r: &Link) -> (d: i64)
    requires
        r.wf(),
    ensures
        d == reach_length(r@),
        0 <= d <= AREA,
{
    let q: i128 = r.num / r.den;
    proof {
        assert(0 <= q <= r.num) by (nonlinear_arith)
            requires
                q == (r.num as int) / (r.den as int),
                r.num >= 0,
                r.den >= 1,
        ;
        lemma_product_bound(AREA as int, AREA as int, AREA as int, AREA as int);
    }
    let root = isqrt(q as u128);
    proof {
        if root > AREA {
            lemma_square_monotone(AREA as int, root as int);
        }
    }
    root as i64
}

/// The length of a vector between two placed points, rounded down.
fn length_of(d: Vec2) -> (r: i64)
    requires
        d.in_span(),
    ensures
        r == floor_sqrt(d@.norm_sq()),
        0 <= r <= 1048576,
{
    let q = norm_sq(d);
    let root = isqrt(q as u128);
    proof {
        if root > 1048576 {
            lemma_square_monotone(1048576, root as int);
        }
    }
    root as i64
}

/// The contact of two shapes that are round about their nearest points.
fn reach_manifold(r: &Link, ra: i64, rb: i64) -> (m: Manifold)
    requires
        r.wf(),
        0 <= ra <= LIMIT,
        0 <= rb <= LIMIT,
    ensures
        m@ == reach_touch(r@, ra as int, rb as int),
        m.n@.bounded(UNIT as int),
{
    let n = unit_of(r.dir);
    let s = stretch_by(n, rb);
    let gap = ra + rb - link_length(r);
    Manifold::one(
        Vec2 { x: r.b.x - s.x, y: r.b.y - s.y },
        if gap < 0 {
            0
        } else {
            gap
        },
        n,
    )
}

/// The contact of two circles.
pub fn circle_to_circle_manifold(a: &Circle, b: &Circle) -> (m: Manifold)
    requires
        a.placed(),
        b.placed(),
    ensures
        m@ == discs_touch(a.p@, a.r as int, b.p@, b.r as int),
        m.n@.bounded(UNIT as int),
{
    if circle_to_circle(a, b) {
        reach_manifold(&centre_link(a.p, b.p), a.r, b.r)
    } else {
        Manifold::none()
    }
}

/// The number of `lo` and `hi` that is nearest to `x`.
pub open spec fn clamp(x: int, lo: int, hi: int) -> int {
    if x < lo {
        lo
    } else if x > hi {
        hi
    } else {
        x
    }
}

/// The smaller of two numbers.
pub open spec fn least(x: int, y: int) -> int {
    if y < x {
        y
    } else {
        x
    }
}

/// The contact of a disc and a rectangle.
///
/// Where the centre lies outside the rectangle, the point of contact is the
/// point of the rectangle nearest to the centre, the normal points from the
/// centre to it, and the depth is what the radius exceeds their distance by.
/// Where the centre lies in the rectangle, the disc leaves through the nearest
/// side, first the left or right one where both are as near: the normal is the
/// inward normal of that side, the point of contact the foot of the centre on
/// it, and the depth the radius and the distance to the side.
pub open spec fn disc_rect_touch(c: Point, r: int, lo: Point, hi: Point) -> Touch {
    let l = Point { x: clamp(c.x, lo.x, hi.x), y: clamp(c.y, lo.y, hi.y) };
    let ab = l.minus(c);
    if !disc_meets_rect(c, r, lo, hi) {
        no_touch()
    } else if ab.x != 0 || ab.y != 0 {
        one_touch(l, at_least_zero(r - floor_sqrt(ab.norm_sq())), unit(ab))
    } else {
        let left = c.x - lo.x;
        let right = hi.x - c.x;
        let down = c.y - lo.y;
        let up = hi.y - c.y;
        let x_over = least(left, right);
        let y_over = least(down, up);
        if x_over < y_over {
            if left < right {
                one_touch(Point { x: lo.x, y: c.y }, r + x_over, Point { x: UNIT as int, y: 0 })
            } else {
                one_touch(Point { x: hi.x, y: c.y }, r + x_over, Point { x: -UNIT as int, y: 0 })
            }
        } else {
            if down < up {
                one_touch(Point { x: c.x, y: lo.y }, r + y_over, Point { x: 0, y: UNIT as int })
            } else {
                one_touch(Point { x: c.x, y: hi.y }, r + y_over, Point { x: 0, y: -UNIT as int })
            }
        }
    }
}

/// The number of `lo` and `hi` that is nearest to `x`.
fn clamp_to(x: i64, lo: i64, hi: i64) -> (r: i64)
    ensures
        r == clamp(x as int, lo as int, hi as int),
{
    if x < lo {
        lo
    } else if x > hi {
        hi
    } else {
        x
    }
}

/// The contact of a circle and a box.
pub fn circle_to_aabb_manifold(a: &Circle, b: &AABB) -> (m: Manifold)
    requires
        a.placed(),
        b.wf(),
    ensures
        m@ == disc_rect_touch(a.p@, a.r as int, b.min@, b.max@),
        m.n@.bounded(UNIT as int),
{
    if !circle_to_aabb(a, b) {
        return Manifold::none();
    }
    let c = a.p;
    let l = Vec2 { x: clamp_to(c.x, b.min.x, b.max.x), y: clamp_to(c.y, b.min.y, b.max.y) };
    let ab = delta(l, c);
    if ab.x != 0 || ab.y != 0 {
        let gap = a.r - length_of(ab);
        return Manifold::one(
            l,
            if gap < 0 {
                0
            } else {
                gap
            },
            unit_of(ab),
        );
    }
    let left = c.x - b.min.x;
    let right = b.max.x - c.x;
    let down = c.y - b.min.y;
    let up = b.max.y - c.y;
    let x_over = if right < left {
        right
    } else {
        left
    };
    let y_over = if up < down {
        up
    } else {
        down
    };
    if x_over < y_over {
        if left < right {
            Manifold::one(Vec2 { x: b.min.x, y: c.y }, a.r + x_over, Vec2 { x: UNIT, y: 0 })
        } else {
            Manifold::one(Vec2 { x: b.max.x, y: c.y }, a.r + x_over, Vec2 { x: -UNIT, y: 0 })
        }
    } else {
        if down < up {
            Manifold::one(Vec2 { x: c.x, y: b.min.y }, a.r + y_over, Vec2 { x: 0, y: UNIT })
        } else {
            Manifold::one(Vec2 { x: c.x, y: b.max.y }, a.r + y_over, Vec2 { x: 0, y: -UNIT })
        }
    }
}

/// The point of the segment from `a` to `b` that is nearest to `p`, each
/// coordinate rounded toward zero.
pub open spec fn foot(a: Point, b: Point, p: Point) -> Point {
    let e = b.minus(a);
    let t = p.minus(a).dot(e);
    if t <= 0 {
        a
    } else if t >= e.norm_sq() {
        b
    } else {
        mix3(a, e.norm_sq() - t, b, t, a, 0)
    }
}

/// The point of the segment from `a` to `b` that is nearest to `p`.
pub fn foot_of(a: Vec2, b: Vec2, p: Vec2) -> (f: Vec2)
    requires
        a.in_world(),
        b.in_world(),
        p.in_world(),
    ensures
        f@ == foot(a@, b@, p@),
        f.in_world(),
{
    let e = delta(b, a);
    let t = dot(delta(p, a), e);
    let ee = norm_sq(e);
    if t <= 0 {
        a
    } else if t >= ee {
        b
    } else {
        mix(a, ee - t, b, t, a, 0)
    }
}

/// The contact of a disc and a pill: that of the disc and the pill about the
/// centre and the point of the segment nearest to it.
pub open spec fn disc_pill_touch(c: Point, r: int, a: Point, b: Point, rp: int) -> Touch {
    if disc_meets_pill(c, r, a, b, rp) {
        reach_touch(point_reach(c, a, b), r, rp)
    } else {
        no_touch()
    }
}

/// The contact of a circle and a capsule.
pub fn circle_to_capsule_manifold(a: &Circle, b: &Capsule) -> (m: Manifold)
    requires
        a.placed(),
        b.placed(),
    ensures
        m@ == disc_pill_touch(a.p@, a.r as int, b.a@, b.b@, b.r as int),
        m.n@.bounded(UNIT as int),
{
    if circle_to_capsule(a, b) {
        reach_manifold(&point_link(a.p, b.a, b.b), a.r, b.r)
    } else {
        Manifold::none()
    }
}

/// The contact of two rectangles that meet. The rectangles part along the
/// coordinate in which they overlap less, first `x` where they overlap as much
/// in both: the normal points along it from the first to the second, the depth
/// is the overlap, and the point of contact is the middle of the side of the
/// first that faces the second.
pub open spec fn rects_touch(lo1: Point, hi1: Point, lo2: Point, hi2: Point) -> Touch {
    let sx = (lo2.x + hi2.x) - (lo1.x + hi1.x);
    let sy = (lo2.y + hi2.y) - (lo1.y + hi1.y);
    let dx = if sx < 0 {
        hi2.x - lo1.x
    } else {
        hi1.x - lo2.x
    };
    let dy = if sy < 0 {
        hi2.y - lo1.y
    } else {
        hi1.y - lo2.y
    };
    let mx = lo1.x + trunc_div(hi1.x - lo1.x, 2);
    let my = lo1.y + trunc_div(hi1.y - lo1.y, 2);
    if !rects_meet(lo1, hi1, lo2, hi2) {
        no_touch()
    } else if dx < dy {
        if sx < 0 {
            one_touch(Point { x: lo1.x, y: my }, dx, Point { x: -UNIT as int, y: 0 })
        } else {
            one_touch(Point { x: hi1.x, y: my }, dx, Point { x: UNIT as int, y: 0 })
        }
    } else {
        if sy < 0 {
            one_touch(Point { x: mx, y: lo1.y }, dy, Point { x: 0, y: -UNIT as int })
        } else {
            one_touch(Point { x: mx, y: hi1.y }, dy, Point { x: 0, y: UNIT as int })
        }
    }
}

/// The contact of two boxes.
pub fn aabb_to_aabb_manifold(a: &AABB, b: &AABB) -> (m: Manifold)
    requires
        a.wf(),
        b.wf(),
    ensures
        m@ == rects_touch(a.min@, a.max@, b.min@, b.max@),
        m.n@.bounded(UNIT as int),
{
    if !aabb_to_aabb(a, b) {
        return Manifold::none();
    }
    let sx = (b.min.x + b.max.x) - (a.min.x + a.max.x);
    let sy = (b.min.y + b.max.y) - (a.min.y + a.max.y);
    let dx = if sx < 0 {
        b.max.x - a.min.x
    } else {
        a.max.x - b.min.x
    };
    let dy = if sy < 0 {
        b.max.y - a.min.y
    } else {
        a.max.y - b.min.y
    };
    let mx = a.min.x + (a.max.x - a.min.x) / 2;
    let my = a.min.y + (a.max.y - a.min.y) / 2;
    if dx < dy {
        if sx < 0 {
            Manifold::one(Vec2 { x: a.min.x, y: my }, dx, Vec2 { x: -UNIT, y: 0 })
        } else {
            Manifold::one(Vec2 { x: a.max.x, y: my }, dx, Vec2 { x: UNIT, y: 0 })
        }
    } else {
        if sy < 0 {
            Manifold::one(Vec2 { x: mx, y: a.min.y }, dy, Vec2 { x: 0, y: -UNIT })
        } else {
            Manifold::one(Vec2 { x: mx, y: a.max.y }, dy, Vec2 { x: 0, y: UNIT })
        }
    }
}

/// `a / sqrt(p)` is less than `b / sqrt(q)`, for positive `p` and `q`.
pub open spec fn frac_less(a: int, p: int, b: int, q: int) -> bool {
    if a < 0 {
        if b >= 0 {
            true
        } else {
            a * a * q > b * b * p
        }
    } else {
        if b < 0 {
            false
        } else {
            a * a * q < b * b * p
        }
    }
}

/// Tells whether `a / sqrt(p)` is less than `b / sqrt(q)`.
fn frac_lt(a: i128, p: i128, b: i128, q: i128) -> (r: bool)
    requires
        -AREA <= a <= AREA,
        -AREA <= b <= AREA,
        0 <= p <= AREA,
        0 <= q <= AREA,
    ensures
        r == frac_less(a as int, p as int, b as int, q as int),
{
    proof {
        lemma_product_bound(a as int, a as int, AREA as int, AREA as int);
        lemma_product_bound(b as int, b as int, AREA as int, AREA as int);
        assert(a * a >= 0) by (nonlinear_arith);
        assert(b * b >= 0) by (nonlinear_arith);
        lemma_product_bound(a * a, q as int, AREA * AREA, AREA as int);
        lemma_product_bound(b * b, p as int, AREA * AREA, AREA as int);
    }
    if a < 0 {
        if b >= 0 {
            true
        } else {
            a * a * q > b * b * p
        }
    } else {
        if b < 0 {
            false
        } else {
            a * a * q < b * b * p
        }
    }
}

/// A direction along which two segments that cross or touch may part: the
/// direction `dir`, how far the second segment reaches back behind the front
/// of the first along it, as a dot product with `dir`, and the squared length
/// of `dir`. There is none where `found` is not set.
pub struct Axis {
    pub found: bool,
    pub dir: Point,
    pub over: int,
    pub len_sq: int,
}

/// How far the segment `a2 b2` reaches back behind the front of the segment
/// `a1 b1` along `u`, as a dot product with `u`.
pub open spec fn slide(a1: Point, b1: Point, a2: Point, b2: Point, u: Point) -> int {
    greatest(a1.dot(u), b1.dot(u)) - least(a2.dot(u), b2.dot(u))
}

/// The better of the direction `best` and the direction `u`: `u` where it has
/// a length and the second segment reaches back less far along it, measured
/// against its length, or where there is no `best` yet.
pub open spec fn better_axis(
    best: Axis,
    a1: Point,
    b1: Point,
    a2: Point,
    b2: Point,
    u: Point,
) -> Axis {
    let over = slide(a1, b1, a2, b2, u);
    if u.norm_sq() > 0 && (!best.found || frac_less(over, u.norm_sq(), best.over, best.len_sq)) {
        Axis { found: true, dir: u, over, len_sq: u.norm_sq() }
    } else {
        best
    }
}

/// The direction along which two segments that cross or touch part at least
/// cost: of the two directions across the first segment and the two across the
/// second, in this order, the first along which the second segment reaches
/// back least far.
pub open spec fn cross_axis(a1: Point, b1: Point, a2: Point, b2: Point) -> Axis {
    let n1 = b1.minus(a1).perp();
    let n2 = b2.minus(a2).perp();
    let none = Axis { found: false, dir: Point { x: 0, y: 0 }, over: 0, len_sq: 0 };
    better_axis(
        better_axis(
            better_axis(better_axis(none, a1, b1, a2, b2, n1), a1, b1, a2, b2, n1.neg()),
            a1,
            b1,
            a2,
            b2,
            n2,
        ),
        a1,
        b1,
        a2,
        b2,
        n2.neg(),
    )
}

/// The contact of two pills whose segments cross or touch: the pills part
/// along the direction across one of the segments along which the second
/// reaches back least far behind the front of the first. The depth is that
/// reach and the sum of the radii, and the point of contact lies on the first
/// pill, beyond the end of its segment that is its front.
pub open spec fn crossed_touch(
    a1: Point,
    b1: Point,
    r1: int,
    a2: Point,
    b2: Point,
    r2: int,
) -> Touch {
    let x = cross_axis(a1, b1, a2, b2);
    let n = unit(x.dir);
    let front = if b1.dot(x.dir) > a1.dot(x.dir) {
        b1
    } else {
        a1
    };
    if x.found {
        one_touch(
            front.plus(stretch(n, r1)),
            at_least_zero(r1 + r2 + trunc_div(x.over, floor_sqrt(x.len_sq))),
            n,
        )
    } else {
        one_touch(a1, r1 + r2, n)
    }
}

/// The contact of two pills: where the segments cross or touch, that of
/// crossing segments; otherwise that of shapes that are round about the
/// nearest points of the segments.
pub open spec fn pills_touch(a1: Point, b1: Point, r1: int, a2: Point, b2: Point, r2: int) -> Touch {
    let p = seg_reach(a1, b1, a2, b2);
    if !pills_meet(a1, b1, r1, a2, b2, r2) {
        no_touch()
    } else if segments_cross(a1, b1, a2, b2) || p.num == 0 {
        crossed_touch(a1, b1, r1, a2, b2, r2)
    } else {
        reach_touch(p, r1, r2)
    }
}

/// A direction along which two segments may part, in machine numbers.
struct Way {
    found: bool,
    dir: Vec2,
    over: i128,
    len_sq: i128,
}

impl Way {
    spec fn model(self) -> Axis {
        Axis { found: self.found, dir: self.dir@, over: self.over as int, len_sq: self.len_sq as int }
    }

    spec fn wf(self) -> bool {
        &&& self.dir.in_span()
        &&& -AREA <= self.over <= AREA
        &&& 0 <= self.len_sq <= AREA
        &&& self.found ==> self.len_sq >= 1 && self.len_sq == self.dir@.norm_sq()
    }
}

/// The better of the direction `best` and the direction `u`.
fn better_way(best: Way, a: &Capsule, b: &Capsule, u: Vec2) -> (r: Way)
    requires
        best.wf(),
        a.placed(),
        b.placed(),
        u.in_span(),
    ensures
        r.wf(),
        r.model() == better_axis(best.model(), a.a@, a.b@, b.a@, b.b@, u@),
{
    let pa = dot(a.a, u);
    let pb = dot(a.b, u);
    let qa = dot(b.a, u);
    let qb = dot(b.b, u);
    let front = if pb > pa {
        pb
    } else {
        pa
    };
    let back = if qb < qa {
        qb
    } else {
        qa
    };
    proof {
        lemma_dot_in_reach(a.a@, u@);
        lemma_dot_in_reach(a.b@, u@);
        lemma_dot_in_reach(b.a@, u@);
        lemma_dot_in_reach(b.b@, u@);
    }
    let over = front - back;
    let len_sq = norm_sq(u);
    if len_sq > 0 && (!best.found || frac_lt(over, len_sq, best.over, best.len_sq)) {
        Way { found: true, dir: u, over, len_sq }
    } else {
        best
    }
}

/// The dot product of a point within `REACH` and a vector within `SPAN` is at
/// most half of `AREA`.
proof fn lemma_dot_in_reach(p: Point, u: Point)
    requires
        p.bounded(196608),
        u.bounded(524288),
    ensures
        -274877906944 <= p.dot(u) <= 274877906944,
{
    lemma_product_bound(p.x, u.x, 196608, 524288);
    lemma_product_bound(p.y, u.y, 196608, 524288);
}

/// The contact of two capsules whose segments cross or touch.
fn crossed_manifold(a: &Capsule, b: &Capsule) -> (m: Manifold)
    requires
        a.placed(),
        b.placed(),
    ensures
        m@ == crossed_touch(a.a@, a.b@, a.r as int, b.a@, b.b@, b.r as int),
        m.n@.bounded(UNIT as int),
{
    let e1 = delta(a.b, a.a);
    let e2 = delta(b.b, b.a);
    let n1 = Vec2 { x: e1.y, y: -e1.x };
    let n2 = Vec2 { x: e2.y, y: -e2.x };
    let none = Way { found: false, dir: Vec2 { x: 0, y: 0 }, over: 0, len_sq: 0 };
    let w1 = better_way(none, a, b, n1);
    let w2 = better_way(w1, a, b, Vec2 { x: -n1.x, y: -n1.y });
    let w3 = better_way(w2, a, b, n2);
    let x = better_way(w3, a, b, Vec2 { x: -n2.x, y: -n2.y });
    let n = unit_of(x.dir);
    if !x.found {
        return Manifold::one(a.a, a.r + b.r, n);
    }
    let front = if dot(a.b, x.dir) > dot(a.a, x.dir) {
        a.b
    } else {
        a.a
    };
    let s = stretch_by(n, a.r);
    let len = edge_length_of(x.dir) as i128;
    proof {
        lemma_trunc_div_bound(x.over as int, len as int, AREA as int);
    }
    let depth = (a.r + b.r) as i128 + div_toward_zero(x.over, len);
    Manifold::one(
        Vec2 { x: front.x + s.x, y: front.y + s.y },
        if depth < 0 {
            0
        } else {
            depth as i64
        },
        n,
    )
}

/// The contact of two capsules.
pub fn capsule_to_capsule_manifold(a: &Capsule, b: &Capsule) -> (m: Manifold)
    requires
        a.placed(),
        b.placed(),
    ensures
        m@ == pills_touch(a.a@, a.b@, a.r as int, b.a@, b.b@, b.r as int),
        m.n@.bounded(UNIT as int),
{
    if !capsule_to_capsule(a, b) {
        return Manifold::none();
    }
    let p = seg_link(a.a, a.b, b.a, b.b);
    if segments_crossing(a.a, a.b, b.a, b.b) || p.num == 0 {
        crossed_manifold(a, b)
    } else {
        reach_manifold(&p, a.r, b.r)
    }
}

/// An edge of a polygon as the side through which another shape leaves it:
/// its index (negative where there is none), how far the other shape reaches
/// beyond it, as twice an area, and the square of its length.
pub struct Face {
    pub index: int,
    pub pen: int,
    pub len_sq: int,
}

/// Of the first `k` edges of `v` that have a length, the first through which
/// the other shape reaches least far: `pens[i]` is how far it reaches beyond
/// edge `i`, as twice an area, and is compared after division by the edge's
/// length.
pub open spec fn face_scan(v: Seq<Point>, pens: Seq<int>, k: int) -> Face
    decreases k,
{
    if k <= 0 {
        Face { index: -1, pen: 0, len_sq: 0 }
    } else {
        let best = face_scan(v, pens, k - 1);
        let len_sq = edge_normal(v, k - 1).norm_sq();
        if len_sq > 0 && (best.index < 0 || frac_less(pens[k - 1], len_sq, best.pen, best.len_sq)) {
            Face { index: k - 1, pen: pens[k - 1], len_sq }
        } else {
            best
        }
    }
}

/// A face, in machine numbers.
struct Side {
    found: bool,
    index: usize,
    pen: i128,
    len_sq: i128,
}

impl Side {
    spec fn model(self) -> Face {
        Face {
            index: if self.found {
                self.index as int
            } else {
                -1
            },
            pen: self.pen as int,
            len_sq: self.len_sq as int,
        }
    }
}

/// The stored normal of an edge of a placed polygon lies within `SPAN`.
proof fn lemma_normal_in_span(p: &Poly, i: int)
    requires
        p.placed(),
        0 <= i < p.count,
    ensures
        p.norms[i].in_span(),
        p.norms[i]@ == edge_normal(p@, i),
{
    let j = p.after(i);
    assert(p.verts[j].in_world());
    assert(p.verts[i].in_world());
    assert(p.norms[i]@ == p.normal(i));
}

/// The first edge of `p` through which the other shape reaches least far.
fn best_face(p: &Poly, pens: &[i128; 8], Ghost(ps): Ghost<Seq<int>>) -> (r: Side)
    requires
        p.placed(),
        forall|i: int| 0 <= i < p.count ==> (#[trigger] pens[i]) == ps[i] && -AREA <= pens[i] <= AREA,
    ensures
        r.model() == face_scan(p@, ps, p.count as int),
        r.found ==> r.index < p.count && 1 <= r.len_sq <= AREA && r.len_sq == edge_normal(
            p@,
            r.index as int,
        ).norm_sq(),
        -AREA <= r.pen <= AREA,
{
    let mut best = Side { found: false, index: 0, pen: 0, len_sq: 0 };
    let mut i: usize = 0;
    while i < p.count
        invariant
            0 <= i <= p.count,
            p.placed(),
            forall|i: int|
                0 <= i < p.count ==> (#[trigger] pens[i]) == ps[i] && -AREA <= pens[i] <= AREA,
            best.model() == face_scan(p@, ps, i as int),
            best.found ==> best.index < p.count && 1 <= best.len_sq <= AREA && best.len_sq
                == edge_normal(p@, best.index as int).norm_sq(),
            !best.found ==> best.pen == 0 && best.len_sq == 0,
            -AREA <= best.pen <= AREA,
        decreases p.count - i,
    {
        proof {
            lemma_normal_in_span(p, i as int);
        }
        let len_sq = norm_sq(p.norms[i]);
        if len_sq > 0 && (!best.found || frac_lt(pens[i], len_sq, best.pen, best.len_sq)) {
            best = Side { found: true, index: i, pen: pens[i], len_sq };
        }
        i = i + 1;
    }
    best
}

/// The nearest points of the point `c` and the first `k` edges of the polygon
/// `v`; of points that are as near, those on the first edge.
pub open spec fn hull_point_reach(c: Point, v: Seq<Point>, k: int) -> Reach
    decreases k,
{
    if k <= 1 {
        point_reach(c, v[0], v[next_index(0, v.len() as int)])
    } else {
        nearer_reach(
            hull_point_reach(c, v, k - 1),
            point_reach(c, v[k - 1], v[next_index(k - 1, v.len() as int)]),
        )
    }
}

/// The length of edge `i` of `v`, rounded down.
pub open spec fn edge_length(v: Seq<Point>, i: int) -> int {
    floor_sqrt(edge_normal(v, i).norm_sq())
}

/// How far the other shape reaches beyond each edge of `v`, where the other
/// shape is the point `c`.
pub open spec fn point_pens(v: Seq<Point>, c: Point) -> Seq<int> {
    Seq::new(v.len(), |i: int| side(v, i, c))
}

/// The contact of a disc and a polygon.
///
/// Where the centre lies in the polygon, the disc leaves through the edge
/// nearest to the centre: the normal is the inward normal of that edge, the
/// point of contact the point of the edge nearest to the centre, and the
/// depth the radius and the distance of the centre from the edge. Where the
/// centre lies outside, the contact is that of the disc and the polygon about
/// the centre and the point of the boundary nearest to it.
pub open spec fn disc_hull_touch(c: Point, r: int, v: Seq<Point>) -> Touch {
    let f = face_scan(v, point_pens(v, c), v.len() as int);
    if !disc_meets_hull(c, r, v) {
        no_touch()
    } else if !inside(v, c) {
        reach_touch(hull_point_reach(c, v, v.len() as int), r, 0)
    } else if f.index < 0 {
        one_touch(c, r, unit(Point { x: 0, y: 0 }))
    } else {
        one_touch(
            foot(v[f.index], v[next_index(f.index, v.len() as int)], c),
            r + trunc_div(f.pen, edge_length(v, f.index)),
            unit(edge_normal(v, f.index)).neg(),
        )
    }
}

/// The length of the edge of a placed polygon with the stored normal `n`,
/// which is not the zero vector.
fn edge_length_of(n: Vec2) -> (r: i64)
    requires
        n.in_span(),
        n@.norm_sq() >= 1,
    ensures
        r == floor_sqrt(n@.norm_sq()),
        1 <= r <= 1048576,
{
    let r = length_of(n);
    proof {
        lemma_floor_sqrt_exists(n@.norm_sq());
        if r < 1 {
            assert((r + 1) * (r + 1) == 1);
        }
    }
    r
}

/// The unit vector against the way of `n`.
fn unit_against(n: Vec2) -> (u: Vec2)
    requires
        n.in_span(),
    ensures
        u@ == unit(n@).neg(),
        u@.bounded(UNIT as int),
{
    let u = unit_of(n);
    Vec2 { x: -u.x, y: -u.y }
}

/// The nearest points of a point and the boundary of a polygon.
fn hull_point_link(c: Vec2, p: &Poly) -> (r: Link)
    requires
        p.placed(),
        c.in_world(),
    ensures
        r@ == hull_point_reach(c@, p@, p.count as int),
        r.wf(),
{
    let mut best = point_link(c, p.verts[0], p.verts[p.next(0)]);
    let mut k: usize = 1;
    while k < p.count
        invariant
            1 <= k <= p.count,
            p.placed(),
            c.in_world(),
            best.wf(),
            best@ == hull_point_reach(c@, p@, k as int),
        decreases p.count - k,
    {
        let cand = point_link(c, p.verts[k], p.verts[p.next(k)]);
        best = nearer_link(best, cand);
        k = k + 1;
    }
    best
}

/// The contact of a circle and a polygon.
pub fn circle_to_poly_manifold(a: &Circle, b: &Poly) -> (m: Manifold)
    requires
        a.placed(),
        b.placed(),
    ensures
        m@ == disc_hull_touch(a.p@, a.r as int, b@),
        m.n@.bounded(UNIT as int),
{
    if !circle_to_poly(a, b) {
        return Manifold::none();
    }
    if !contains(b, a.p) {
        return reach_manifold(&hull_point_link(a.p, b), a.r, 0);
    }
    let mut pens: [i128; 8] = [0; 8];
    let mut i: usize = 0;
    while i < b.count
        invariant
            0 <= i <= b.count,
            a.placed(),
            b.placed(),
            forall|k: int|
                0 <= k < i ==> (#[trigger] pens[k]) == side(b@, k, a.p@) && -AREA <= pens[k]
                    <= AREA,
        decreases b.count - i,
    {
        pens[i] = side_of(b, i, a.p);
        i = i + 1;
    }
    let f = best_face(b, &pens, Ghost(point_pens(b@, a.p@)));
    if !f.found {
        return Manifold::one(a.p, a.r, unit_of(Vec2 { x: 0, y: 0 }));
    }
    proof {
        lemma_normal_in_span(b, f.index as int);
    }
    let n = b.norms[f.index];
    let len = edge_length_of(n);
    let depth = div_toward_zero(f.pen, len as i128);
    proof {
        lemma_trunc_div_bound(f.pen as int, len as int, AREA as int);
    }
    Manifold::one(
        foot_of(b.verts[f.index], b.verts[b.next(f.index)], a.p),
        a.r + depth as i64,
        unit_against(n),
    )
}


/// The segment from `a` to `b` crosses an edge of the polygon `v`.
pub open spec fn core_crosses(a: Point, b: Point, v: Seq<Point>) -> bool {
    exists|i: int|
        0 <= i < v.len() && #[trigger] segments_cross(
            a,
            b,
            v[i],
            v[next_index(i, v.len() as int)],
        )
}

/// The segment of a pill reaches the polygon `v`: an end lies in it, or the
/// segment crosses or touches an edge.
pub open spec fn pill_deep(a: Point, b: Point, v: Seq<Point>) -> bool {
    inside(v, a) || inside(v, b) || core_crosses(a, b, v) || hull_seg_reach(
        a,
        b,
        v,
        v.len() as int,
    ).num == 0
}

/// The larger of two numbers.
pub open spec fn greatest(x: int, y: int) -> int {
    if y > x {
        y
    } else {
        x
    }
}

/// How far the other shape reaches beyond each edge of `v`, where the other
/// shape is the segment from `a` to `b`.
pub open spec fn segment_pens(v: Seq<Point>, a: Point, b: Point) -> Seq<int> {
    Seq::new(v.len(), |i: int| greatest(side(v, i, a), side(v, i, b)))
}

/// The nearest points of the segment from `a` to `b` and of the first `k`
/// edges of the polygon `v`; of pairs that are as near, the one on the first
/// edge.
pub open spec fn hull_seg_reach(a: Point, b: Point, v: Seq<Point>, k: int) -> Reach
    decreases k,
{
    if k <= 1 {
        seg_reach(a, b, v[0], v[next_index(0, v.len() as int)])
    } else {
        nearer_reach(
            hull_seg_reach(a, b, v, k - 1),
            seg_reach(a, b, v[k - 1], v[next_index(k - 1, v.len() as int)]),
        )
    }
}

/// The contact of a pill and a polygon.
///
/// Where the segment of the pill stays outside the polygon, the contact is
/// that of the pill and the polygon about the nearest points of the segment
/// and the boundary. Where the segment reaches the polygon, the pill leaves
/// through the edge beyond which its segment reaches least far: the normal is
/// the inward normal of that edge, the depth the radius and the distance of
/// the deeper end of the segment from the edge, and the point of contact lies
/// on the pill beyond that end.
pub open spec fn pill_hull_touch(a: Point, b: Point, r: int, v: Seq<Point>) -> Touch {
    let f = face_scan(v, segment_pens(v, a, b), v.len() as int);
    let p = hull_seg_reach(a, b, v, v.len() as int);
    if !pill_meets_hull(a, b, r, v) {
        no_touch()
    } else if !pill_deep(a, b, v) {
        reach_touch(p, r, 0)
    } else if f.index < 0 {
        one_touch(a, r, unit(Point { x: 0, y: 0 }))
    } else {
        let q = if side(v, f.index, b) > side(v, f.index, a) {
            b
        } else {
            a
        };
        let n = unit(edge_normal(v, f.index)).neg();
        one_touch(
            q.plus(stretch(n, r)),
            at_least_zero(r + trunc_div(f.pen, edge_length(v, f.index))),
            n,
        )
    }
}

/// Tells whether the segment of a capsule crosses an edge of a polygon.
fn crosses_edge(a: &Capsule, b: &Poly) -> (res: bool)
    requires
        a.placed(),
        b.placed(),
    ensures
        res == core_crosses(a.a@, a.b@, b@),
{
    let mut i: usize = 0;
    while i < b.count
        invariant
            0 <= i <= b.count,
            a.placed(),
            b.placed(),
            forall|k: int|
                0 <= k < i ==> !#[trigger] segments_cross(
                    a.a@,
                    a.b@,
                    b@[k],
                    b@[next_index(k, b@.len() as int)],
                ),
        decreases b.count - i,
    {
        let j = b.next(i);
        if segments_crossing(a.a, a.b, b.verts[i], b.verts[j]) {
            assert(segments_cross(
                a.a@,
                a.b@,
                b@[i as int],
                b@[next_index(i as int, b@.len() as int)],
            ));
            return true;
        }
        i = i + 1;
    }
    false
}

/// The nearest points of the segment of a capsule and of the boundary of a
/// polygon.
fn hull_seg_link(a: &Capsule, b: &Poly) -> (r: Link)
    requires
        a.placed(),
        b.placed(),
    ensures
        r@ == hull_seg_reach(a.a@, a.b@, b@, b.count as int),
        r.wf(),
{
    let mut best = seg_link(a.a, a.b, b.verts[0], b.verts[b.next(0)]);
    let mut k: usize = 1;
    while k < b.count
        invariant
            1 <= k <= b.count,
            a.placed(),
            b.placed(),
            best.wf(),
            best@ == hull_seg_reach(a.a@, a.b@, b@, k as int),
        decreases b.count - k,
    {
        let cand = seg_link(a.a, a.b, b.verts[k], b.verts[b.next(k)]);
        best = nearer_link(best, cand);
        k = k + 1;
    }
    best
}

/// The contact of a capsule and a polygon.
pub fn capsule_to_poly_manifold(a: &Capsule, b: &Poly) -> (m: Manifold)
    requires
        a.placed(),
        b.placed(),
    ensures
        m@ == pill_hull_touch(a.a@, a.b@, a.r as int, b@),
        m.n@.bounded(UNIT as int),
{
    if !capsule_to_poly(a, b) {
        return Manifold::none();
    }
    let p = hull_seg_link(a, b);
    if !(contains(b, a.a) || contains(b, a.b) || crosses_edge(a, b) || p.num == 0) {
        return reach_manifold(&p, a.r, 0);
    }
    let mut pens: [i128; 8] = [0; 8];
    let mut i: usize = 0;
    while i < b.count
        invariant
            0 <= i <= b.count,
            a.placed(),
            b.placed(),
            forall|k: int|
                0 <= k < i ==> (#[trigger] pens[k]) == greatest(
                    side(b@, k, a.a@),
                    side(b@, k, a.b@),
                ) && -AREA <= pens[k] <= AREA,
        decreases b.count - i,
    {
        let sa = side_of(b, i, a.a);
        let sb = side_of(b, i, a.b);
        pens[i] = if sb > sa {
            sb
        } else {
            sa
        };
        i = i + 1;
    }
    let f = best_face(b, &pens, Ghost(segment_pens(b@, a.a@, a.b@)));
    if !f.found {
        return Manifold::one(a.a, a.r, unit_of(Vec2 { x: 0, y: 0 }));
    }
    proof {
        lemma_normal_in_span(b, f.index as int);
    }
    let q = if side_of(b, f.index, a.b) > side_of(b, f.index, a.a) {
        a.b
    } else {
        a.a
    };
    let nn = b.norms[f.index];
    let len = edge_length_of(nn);
    let n = unit_against(nn);
    let s = stretch_by(n, a.r);
    proof {
        lemma_trunc_div_bound(f.pen as int, len as int, AREA as int);
    }
    let depth = a.r as i128 + div_toward_zero(f.pen, len as i128);
    Manifold::one(
        Vec2 { x: q.x + s.x, y: q.y + s.y },
        if depth < 0 {
            0
        } else {
            depth as i64
        },
        n,
    )
}

/// The index of the first of the first `k` vertices of `g` that lies farthest
/// on the inner side of edge `i` of `h`.
pub open spec fn deepest(h: Seq<Point>, i: int, g: Seq<Point>, k: int) -> int
    decreases k,
{
    if k <= 1 {
        0
    } else {
        let prev = deepest(h, i, g, k - 1);
        if side(h, i, g[k - 1]) > side(h, i, g[prev]) {
            k - 1
        } else {
            prev
        }
    }
}

/// How far the other shape reaches beyond each edge of `h`, where the other
/// shape is the polygon `g`.
pub open spec fn hull_pens(h: Seq<Point>, g: Seq<Point>) -> Seq<int> {
    Seq::new(h.len(), |i: int| side(h, i, g[deepest(h, i, g, g.len() as int)]))
}

/// The dot products of `n` with the normals of the edges of `g`.
pub open spec fn normal_dots(g: Seq<Point>, n: Point) -> Seq<int> {
    Seq::new(g.len(), |j: int| n.dot(edge_normal(g, j)))
}

/// Two points of contact.
pub open spec fn two_touch(p0: Point, d0: int, p1: Point, d1: int, n: Point) -> Touch {
    Touch { count: 2, d0, d1, p0, p1, n }
}

/// The part of the segment from `p0` to `p1` on which a function that is
/// `f0` at `p0`, `f1` at `p1` and linear between them is not negative.
pub open spec fn cut_low(p0: Point, p1: Point, f0: int, f1: int) -> Option<(Point, Point)> {
    if f0 < 0 && f1 < 0 {
        None
    } else if f0 < 0 {
        Some((mix3(p0, f1, p1, -f0, p0, 0), p1))
    } else if f1 < 0 {
        Some((p0, mix3(p0, -f1, p1, f0, p0, 0)))
    } else {
        Some((p0, p1))
    }
}

/// The part of the segment from `p0` to `p1` that lies between the two lines
/// through `v0` and through `v1` across the edge from `v0` to `v1`.
pub open spec fn clip(p0: Point, p1: Point, v0: Point, v1: Point) -> Option<(Point, Point)> {
    let e = v1.minus(v0);
    match cut_low(p0, p1, e.dot(p0.minus(v0)), e.dot(p1.minus(v0))) {
        None => None,
        Some(q) => cut_low(q.0, q.1, e.dot(v1.minus(q.0)), e.dot(v1.minus(q.1))),
    }
}

/// The contact of the polygon `h` with the polygon `g` that reaches least far
/// beyond the edge `f` of `h`; the normal points from `h` to `g`.
///
/// The edge of `g` that faces `f` most directly is cut to the part that lies
/// between the ends of `f`. Each end of that part that lies on the inner side
/// of `f` is a point of contact, with its distance from `f` as the depth.
/// Where there is none, the vertex of `g` farthest beyond `f` is the one point
/// of contact.
pub open spec fn face_touch(h: Seq<Point>, f: Face, g: Seq<Point>) -> Touch {
    let i = f.index;
    let n = unit(edge_normal(h, i));
    let len = edge_length(h, i);
    let k0 = face_scan(g, normal_dots(g, edge_normal(h, i)), g.len() as int).index;
    let k = if k0 < 0 {
        0
    } else {
        k0
    };
    let j = deepest(h, i, g, g.len() as int);
    let fallback = one_touch(g[j], at_least_zero(trunc_div(f.pen, len)), n);
    match clip(g[k], g[next_index(k, g.len() as int)], h[i], h[next_index(i, h.len() as int)]) {
        None => fallback,
        Some(q) => {
            let s0 = side(h, i, q.0);
            let s1 = side(h, i, q.1);
            if s0 >= 0 && s1 >= 0 {
                two_touch(q.0, trunc_div(s0, len), q.1, trunc_div(s1, len), n)
            } else if s0 >= 0 {
                one_touch(q.0, trunc_div(s0, len), n)
            } else if s1 >= 0 {
                one_touch(q.1, trunc_div(s1, len), n)
            } else {
                fallback
            }
        },
    }
}

/// The contact of two polygons.
///
/// Polygons that an edge of either separates do not touch. Otherwise the
/// polygons part along the normal of the edge beyond which the other polygon
/// reaches least far, first by the edges of the first polygon, then by those
/// of the second; of edges with the same reach, the first is taken.
pub open spec fn hulls_touch(h: Seq<Point>, g: Seq<Point>) -> Touch {
    let fh = face_scan(h, hull_pens(h, g), h.len() as int);
    let fg = face_scan(g, hull_pens(g, h), g.len() as int);
    if !hulls_meet(h, g) {
        no_touch()
    } else if fg.index >= 0 && (fh.index < 0 || frac_less(fg.pen, fg.len_sq, fh.pen, fh.len_sq)) {
        flipped(face_touch(g, fg, h))
    } else if fh.index >= 0 {
        face_touch(h, fh, g)
    } else {
        one_touch(h[0], 0, unit(Point { x: 0, y: 0 }))
    }
}

/// The index of the first vertex of `g` that lies farthest on the inner side
/// of edge `i` of `h`.
fn deepest_vertex(h: &Poly, i: usize, g: &Poly) -> (j: usize)
    requires
        h.placed(),
        g.placed(),
        i < h.count,
    ensures
        j == deepest(h@, i as int, g@, g.count as int),
        j < g.count,
{
    let mut j: usize = 0;
    let mut best = side_of(h, i, g.verts[0]);
    let mut k: usize = 1;
    while k < g.count
        invariant
            1 <= k <= g.count,
            h.placed(),
            g.placed(),
            i < h.count,
            j < k,
            j == deepest(h@, i as int, g@, k as int),
            best == side(h@, i as int, g@[j as int]),
        decreases g.count - k,
    {
        let s = side_of(h, i, g.verts[k]);
        assert(g@[k as int] == g.verts[k as int]@);
        if s > best {
            best = s;
            j = k;
        }
        k = k + 1;
    }
    j
}

/// The edge of `h` beyond which the polygon `g` reaches least far.
fn reference_face(h: &Poly, g: &Poly) -> (r: Side)
    requires
        h.placed(),
        g.placed(),
    ensures
        r.model() == face_scan(h@, hull_pens(h@, g@), h.count as int),
        r.found ==> r.index < h.count && 1 <= r.len_sq <= AREA && r.len_sq == edge_normal(
            h@,
            r.index as int,
        ).norm_sq(),
        -AREA <= r.pen <= AREA,
{
    let mut pens: [i128; 8] = [0; 8];
    let mut i: usize = 0;
    while i < h.count
        invariant
            0 <= i <= h.count,
            h.placed(),
            g.placed(),
            forall|k: int|
                0 <= k < i ==> (#[trigger] pens[k]) == side(
                    h@,
                    k,
                    g@[deepest(h@, k, g@, g@.len() as int)],
                ) && -AREA <= pens[k] <= AREA,
        decreases h.count - i,
    {
        let j = deepest_vertex(h, i, g);
        assert(g@[j as int] == g.verts[j as int]@);
        pens[i] = side_of(h, i, g.verts[j]);
        i = i + 1;
    }
    best_face(h, &pens, Ghost(hull_pens(h@, g@)))
}

/// The index of the edge of `g` that faces the normal `n` most directly.
fn incident_edge(g: &Poly, n: Vec2) -> (k: usize)
    requires
        g.placed(),
        n.in_span(),
    ensures
        k < g.count,
        k == {
            let k0 = face_scan(g@, normal_dots(g@, n@), g.count as int).index;
            if k0 < 0 {
                0
            } else {
                k0
            }
        },
{
    let mut dots: [i128; 8] = [0; 8];
    let mut j: usize = 0;
    while j < g.count
        invariant
            0 <= j <= g.count,
            g.placed(),
            n.in_span(),
            forall|k: int|
                0 <= k < j ==> (#[trigger] dots[k]) == n@.dot(edge_normal(g@, k)) && -AREA
                    <= dots[k] <= AREA,
        decreases g.count - j,
    {
        proof {
            lemma_normal_in_span(g, j as int);
        }
        dots[j] = dot(n, g.norms[j]);
        j = j + 1;
    }
    let f = best_face(g, &dots, Ghost(normal_dots(g@, n@)));
    if f.found {
        f.index
    } else {
        0
    }
}

/// The part of a segment on which a linear function is not negative.
fn cut(p0: Vec2, p1: Vec2, f0: i128, f1: i128) -> (r: Option<(Vec2, Vec2)>)
    requires
        p0.in_world(),
        p1.in_world(),
        -AREA <= f0 <= AREA,
        -AREA <= f1 <= AREA,
    ensures
        match r {
            Some(q) => cut_low(p0@, p1@, f0 as int, f1 as int) == Some((q.0@, q.1@))
                && q.0.in_world() && q.1.in_world(),
            None => cut_low(p0@, p1@, f0 as int, f1 as int) is None,
        },
{
    if f0 < 0 && f1 < 0 {
        None
    } else if f0 < 0 {
        Some((mix(p0, f1, p1, -f0, p0, 0), p1))
    } else if f1 < 0 {
        Some((p0, mix(p0, -f1, p1, f0, p0, 0)))
    } else {
        Some((p0, p1))
    }
}

/// The part of the segment from `p0` to `p1` between the two lines across the
/// ends of the edge from `v0` to `v1`.
fn clip_segment(p0: Vec2, p1: Vec2, v0: Vec2, v1: Vec2) -> (r: Option<(Vec2, Vec2)>)
    requires
        p0.in_world(),
        p1.in_world(),
        v0.in_world(),
        v1.in_world(),
    ensures
        match r {
            Some(q) => clip(p0@, p1@, v0@, v1@) == Some((q.0@, q.1@)) && q.0.in_world()
                && q.1.in_world(),
            None => clip(p0@, p1@, v0@, v1@) is None,
        },
{
    let e = delta(v1, v0);
    match cut(p0, p1, dot(e, delta(p0, v0)), dot(e, delta(p1, v0))) {
        None => None,
        Some(q) => cut(q.0, q.1, dot(e, delta(v1, q.0)), dot(e, delta(v1, q.1))),
    }
}

/// The contact of the polygon `h` with the polygon `g` at the edge `f` of
/// `h`.
fn face_manifold(h: &Poly, f: &Side, g: &Poly) -> (m: Manifold)
    requires
        h.placed(),
        g.placed(),
        f.found,
        f.index < h.count,
        f.len_sq == edge_normal(h@, f.index as int).norm_sq(),
        1 <= f.len_sq,
        -AREA <= f.pen <= AREA,
    ensures
        m@ == face_touch(h@, f.model(), g@),
        m.n@.bounded(UNIT as int),
        m.count >= 1,
{
    let i = f.index;
    proof {
        lemma_normal_in_span(h, i as int);
    }
    let nn = h.norms[i];
    let n = unit_of(nn);
    let len = edge_length_of(nn) as i128;
    let k = incident_edge(g, nn);
    let j = deepest_vertex(h, i, g);
    proof {
        lemma_trunc_div_bound(f.pen as int, len as int, AREA as int);
        assert(g@[j as int] == g.verts[j as int]@);
        assert(g@[k as int] == g.verts[k as int]@);
    }
    let reach = div_toward_zero(f.pen, len);
    let fallback = Manifold::one(
        g.verts[j],
        if reach < 0 {
            0
        } else {
            reach as i64
        },
        n,
    );
    match clip_segment(g.verts[k], g.verts[g.next(k)], h.verts[i], h.verts[h.next(i)]) {
        None => fallback,
        Some(q) => {
            let s0 = side_of(h, i, q.0);
            let s1 = side_of(h, i, q.1);
            proof {
                lemma_trunc_div_bound(s0 as int, len as int, AREA as int);
                lemma_trunc_div_bound(s1 as int, len as int, AREA as int);
            }
            if s0 >= 0 && s1 >= 0 {
                Manifold {
                    count: 2,
                    depths: [div_toward_zero(s0, len) as i64, div_toward_zero(s1, len) as i64],
                    contact_points: [q.0, q.1],
                    n,
                }
            } else if s0 >= 0 {
                Manifold::one(q.0, div_toward_zero(s0, len) as i64, n)
            } else if s1 >= 0 {
                Manifold::one(q.1, div_toward_zero(s1, len) as i64, n)
            } else {
                fallback
            }
        },
    }
}

/// The contact of two polygons.
pub fn poly_to_poly_manifold(a: &Poly, b: &Poly) -> (m: Manifold)
    requires
        a.placed(),
        b.placed(),
    ensures
        m@ == hulls_touch(a@, b@),
        m.n@.bounded(UNIT as int),
{
    if !poly_to_poly(a, b) {
        return Manifold::none();
    }
    let fa = reference_face(a, b);
    let fb = reference_face(b, a);
    if fb.found && (!fa.found || frac_lt(fb.pen, fb.len_sq, fa.pen, fa.len_sq)) {
        face_manifold(b, &fb, a).flip()
    } else if fa.found {
        face_manifold(a, &fa, b)
    } else {
        Manifold::one(a.verts[0], 0, unit_of(Vec2 { x: 0, y: 0 }))
    }
}

/// The contact of a box and a capsule, the normal pointing from the box to the
/// capsule; the box stands for the polygon of its corners.
pub fn aabb_to_capsule_manifold(a: &AABB, b: &Capsule) -> (m: Manifold)
    requires
        a.wf(),
        b.placed(),
    ensures
        m@ == flipped(pill_hull_touch(b.a@, b.b@, b.r as int, corners(a.min@, a.max@))),
        m.n@.bounded(UNIT as int),
{
    let p = a.to_poly();
    capsule_to_poly_manifold(b, &p).flip()
}

/// The contact of a box and a polygon; the box stands for the polygon of its
/// corners.
pub fn aabb_to_poly_manifold(a: &AABB, b: &Poly) -> (m: Manifold)
    requires
        a.wf(),
        b.placed(),
    ensures
        m@ == hulls_touch(corners(a.min@, a.max@), b@),
        m.n@.bounded(UNIT as int),
{
    let p = a.to_poly();
    poly_to_poly_manifold(&p, b)
}

/// How two placed shapes touch, by the contact of their pair of kinds. The
/// normal points from the first shape to the second: where the contact of a
/// pair is stated for the other order of the two kinds, the normal is turned
/// round.
pub open spec fn touch(f: Figure, g: Figure) -> Touch {
    match (f, g) {
        (Figure::Disc { c: c1, r: r1 }, Figure::Disc { c: c2, r: r2 }) => discs_touch(
            c1,
            r1,
            c2,
            r2,
        ),
        (Figure::Disc { c, r }, Figure::Rect { lo, hi }) => disc_rect_touch(c, r, lo, hi),
        (Figure::Rect { lo, hi }, Figure::Disc { c, r }) => flipped(disc_rect_touch(c, r, lo, hi)),
        (Figure::Disc { c, r }, Figure::Pill { a, b, r: rp }) => disc_pill_touch(c, r, a, b, rp),
        (Figure::Pill { a, b, r: rp }, Figure::Disc { c, r }) => flipped(
            disc_pill_touch(c, r, a, b, rp),
        ),
        (Figure::Disc { c, r }, Figure::Hull { v }) => disc_hull_touch(c, r, v),
        (Figure::Hull { v }, Figure::Disc { c, r }) => flipped(disc_hull_touch(c, r, v)),
        (Figure::Rect { lo: lo1, hi: hi1 }, Figure::Rect { lo: lo2, hi: hi2 }) => rects_touch(
            lo1,
            hi1,
            lo2,
            hi2,
        ),
        (Figure::Rect { lo, hi }, Figure::Pill { a, b, r }) => flipped(
            pill_hull_touch(a, b, r, corners(lo, hi)),
        ),
        (Figure::Pill { a, b, r }, Figure::Rect { lo, hi }) => pill_hull_touch(
            a,
            b,
            r,
            corners(lo, hi),
        ),
        (Figure::Rect { lo, hi }, Figure::Hull { v }) => hulls_touch(corners(lo, hi), v),
        (Figure::Hull { v }, Figure::Rect { lo, hi }) => hulls_touch(v, corners(lo, hi)),
        (Figure::Pill { a: a1, b: b1, r: r1 }, Figure::Pill { a: a2, b: b2, r: r2 }) => pills_touch(
            a1,
            b1,
            r1,
            a2,
            b2,
            r2,
        ),
        (Figure::Pill { a, b, r }, Figure::Hull { v }) => pill_hull_touch(a, b, r, v),
        (Figure::Hull { v }, Figure::Pill { a, b, r }) => flipped(pill_hull_touch(a, b, r, v)),
        (Figure::Hull { v: h }, Figure::Hull { v: g }) => hulls_touch(h, g),
    }
}

/// How two placed shapes touch, by the contact of their pair of kinds.
pub fn solids_manifold(a: &Solid, b: &Solid) -> (m: Manifold)
    requires
        a.placed(),
        b.placed(),
    ensures
        m@ == touch(a.figure(), b.figure()),
        m.n@.bounded(UNIT as int),
{
    match (a, b) {
        (Solid::Circle(x), Solid::Circle(y)) => circle_to_circle_manifold(x, y),
        (Solid::Circle(x), Solid::AABB(y)) => circle_to_aabb_manifold(x, y),
        (Solid::AABB(x), Solid::Circle(y)) => circle_to_aabb_manifold(y, x).flip(),
        (Solid::Circle(x), Solid::Capsule(y)) => circle_to_capsule_manifold(x, y),
        (Solid::Capsule(x), Solid::Circle(y)) => circle_to_capsule_manifold(y, x).flip(),
        (Solid::Circle(x), Solid::Poly(y)) => circle_to_poly_manifold(x, y),
        (Solid::Poly(x), Solid::Circle(y)) => circle_to_poly_manifold(y, x).flip(),
        (Solid::AABB(x), Solid::AABB(y)) => aabb_to_aabb_manifold(x, y),
        (Solid::AABB(x), Solid::Capsule(y)) => aabb_to_capsule_manifold(x, y),
        (Solid::Capsule(x), Solid::AABB(y)) => {
            let p = y.to_poly();
            capsule_to_poly_manifold(x, &p)
        },
        (Solid::AABB(x), Solid::Poly(y)) => aabb_to_poly_manifold(x, y),
        (Solid::Poly(x), Solid::AABB(y)) => {
            let p = y.to_poly();
            poly_to_poly_manifold(x, &p)
        },
        (Solid::Capsule(x), Solid::Capsule(y)) => capsule_to_capsule_manifold(x, y),
        (Solid::Capsule(x), Solid::Poly(y)) => capsule_to_poly_manifold(x, y),
        (Solid::Poly(x), Solid::Capsule(y)) => capsule_to_poly_manifold(y, x).flip(),
        (Solid::Poly(x), Solid::Poly(y)) => poly_to_poly_manifold(x, y),
    }
}

/// How two shapes touch once each is placed in the world: no contact where
/// they do not collide, and otherwise one or two points of contact with the
/// depth of the overlap at each, and the normal from the first shape to the
/// second.
pub fn manifold(a: &Body, b: &Body) -> (m: Manifold)
    requires
        a.wf(),
        b.wf(),
    ensures
        m@ == touch(a.figure(), b.figure()),
        m.count > 0 <==> meets(a.figure(), b.figure()),
        0 <= m.count <= 2,
        m.n@.bounded(UNIT as int),
{
    let x = a.place();
    let y = b.place();
    proof {
        lemma_touch_agrees(a.figure(), b.figure());
    }
    solids_manifold(&x, &y)
}

/// Shapes have a point of contact where they collide, and nowhere else; and
/// they never have more than two.
pub proof fn lemma_touch_agrees(f: Figure, g: Figure)
    ensures
        touch(f, g).count > 0 <==> meets(f, g),
        0 <= touch(f, g).count <= 2,
{
}


} // verus!
