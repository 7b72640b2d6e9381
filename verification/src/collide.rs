//! The boolean collision tests: one for each of the ten pairs of shape kinds,
//! and the dispatch over them.

use vstd::prelude::*;
use crate::model::{
    apart, corners, disc_meets_hull, disc_meets_pill, disc_meets_rect, discs_meet, enclosed,
    has_area, hulls_meet, inside, meets, near_segment, opposite, overshoot, pill_meets_hull, pills_meet, rects_meet,
    segments_cross, segments_near, separates, side, Figure,
};
use crate::poly::{next_index, Poly};
use crate::scalar::{lemma_product_bound, within, LIMIT, REACH, WORLD};
use crate::shapes::{place_point, Capsule, Circle, Transformation, AABB};
use crate::vec2::{cross, delta, distance_sq, dot, norm_sq, orientation, Vec2, AREA};

verus! {

/// Tells whether `p` is within `r` of the segment from `a` to `b`.
pub fn point_near_segment(a: Vec2, b: Vec2, p: Vec2, r: i64) -> (res: bool)
    requires
        a.in_world(),
        b.in_world(),
        p.in_world(),
        0 <= r <= 2 * LIMIT,
    ensures
        res == near_segment(a@, b@, p@, r as int),
{
    let e = delta(b, a);
    let w = delta(p, a);
    let t = dot(w, e);
    proof {
        lemma_product_bound(r as int, r as int, 131072, 131072);
    }
    let rr: i128 = (r as i128) * (r as i128);
    if t <= 0 {
        norm_sq(w) <= rr
    } else {
        let ee = norm_sq(e);
        if t >= ee {
            norm_sq(delta(p, b)) <= rr
        } else {
            let c = cross(w, e);
            proof {
                lemma_product_bound(c as int, c as int, AREA as int, AREA as int);
                lemma_product_bound(rr as int, ee as int, 17179869184, AREA as int);
            }
            c * c <= rr * ee
        }
    }
}

/// Tells whether two numbers have opposite strict signs.
pub fn opposite_signs(x: i128, y: i128) -> (res: bool)
    ensures
        res == opposite(x as int, y as int),
{
    (x > 0 && y < 0) || (x < 0 && y > 0)
}

/// Tells whether the segments `ab` and `cd` cross at a point inside both.
pub fn segments_crossing(a: Vec2, b: Vec2, c: Vec2, d: Vec2) -> (res: bool)
    requires
        a.in_world(),
        b.in_world(),
        c.in_world(),
        d.in_world(),
    ensures
        res == segments_cross(a@, b@, c@, d@),
{
    opposite_signs(orientation(a, b, c), orientation(a, b, d)) && opposite_signs(
        orientation(c, d, a),
        orientation(c, d, b),
    )
}

/// Tells whether the segments `ab` and `cd` are within `r` of each other.
pub fn segments_within(a: Vec2, b: Vec2, c: Vec2, d: Vec2, r: i64) -> (res: bool)
    requires
        a.in_world(),
        b.in_world(),
        c.in_world(),
        d.in_world(),
        0 <= r <= 2 * LIMIT,
    ensures
        res == segments_near(a@, b@, c@, d@, r as int),
{
    segments_crossing(a, b, c, d) || point_near_segment(c, d, a, r) || point_near_segment(
        c,
        d,
        b,
        r,
    ) || point_near_segment(a, b, c, r) || point_near_segment(a, b, d, r)
}

/// On which side of edge `i` of `p` the point `q` lies, as twice the signed
/// area of their triangle.
pub fn side_of(p: &Poly, i: usize, q: Vec2) -> (r: i128)
    requires
        p.placed(),
        i < p.count,
        q.in_world(),
    ensures
        r == side(p@, i as int, q@),
        within(r as int, AREA as int),
{
    let j = p.next(i);
    orientation(p.verts[i], p.verts[j], q)
}

/// Tells whether the polygon `p` has an interior.
pub fn spans_area(p: &Poly) -> (res: bool)
    requires
        p.placed(),
    ensures
        res == has_area(p@),
{
    let mut i: usize = 0;
    while i < p.count
        invariant
            0 <= i <= p.count,
            p.placed(),
            forall|a: int, b: int|
                0 <= a < i && 0 <= b < p.count ==> !(#[trigger] side(p@, a, p@[b]) > 0),
        decreases p.count - i,
    {
        let mut j: usize = 0;
        while j < p.count
            invariant
                0 <= j <= p.count,
                i < p.count,
                p.placed(),
                forall|b: int| 0 <= b < j ==> !(#[trigger] side(p@, i as int, p@[b]) > 0),
            decreases p.count - j,
        {
            let s = side_of(p, i, p.verts[j]);
            assert(p@[j as int] == p.verts[j as int]@);
            if s > 0 {
                return true;
            }
            j = j + 1;
        }
        i = i + 1;
    }
    false
}

/// Tells whether `q` lies on the outer side of no edge of `p`.
pub fn encloses_point(p: &Poly, q: Vec2) -> (res: bool)
    requires
        p.placed(),
        q.in_world(),
    ensures
        res == enclosed(p@, q@),
{
    let mut i: usize = 0;
    while i < p.count
        invariant
            0 <= i <= p.count,
            p.placed(),
            q.in_world(),
            forall|k: int| 0 <= k < i ==> #[trigger] side(p@, k, q@) >= 0,
        decreases p.count - i,
    {
        if side_of(p, i, q) < 0 {
            return false;
        }
        i = i + 1;
    }
    true
}

/// Tells whether `q` lies in the polygon `p` or on its boundary.
pub fn contains(p: &Poly, q: Vec2) -> (res: bool)
    requires
        p.placed(),
        q.in_world(),
    ensures
        res == inside(p@, q@),
{
    encloses_point(p, q) && spans_area(p)
}

/// Tells whether every vertex of `g` lies strictly on the outer side of edge
/// `i` of `p`.
pub fn edge_separates(p: &Poly, i: usize, g: &Poly) -> (res: bool)
    requires
        p.placed(),
        g.placed(),
        i < p.count,
    ensures
        res == separates(p@, i as int, g@),
{
    let mut j: usize = 0;
    while j < g.count
        invariant
            0 <= j <= g.count,
            p.placed(),
            g.placed(),
            i < p.count,
            forall|k: int| 0 <= k < j ==> side(p@, i as int, #[trigger] g@[k]) < 0,
        decreases g.count - j,
    {
        if side_of(p, i, g.verts[j]) >= 0 {
            assert(g@[j as int] == g.verts[j as int]@);
            return false;
        }
        assert(g@[j as int] == g.verts[j as int]@);
        j = j + 1;
    }
    true
}

/// Tells whether an edge of `p` separates `g` from `p`.
pub fn separated_by_edge(p: &Poly, g: &Poly) -> (res: bool)
    requires
        p.placed(),
        g.placed(),
    ensures
        res == apart(p@, g@),
{
    let mut i: usize = 0;
    while i < p.count
        invariant
            0 <= i <= p.count,
            p.placed(),
            g.placed(),
            forall|k: int| 0 <= k < i ==> !#[trigger] separates(p@, k, g@),
        decreases p.count - i,
    {
        if edge_separates(p, i, g) {
            return true;
        }
        i = i + 1;
    }
    false
}

/// Tells whether two circles touch or overlap.
pub fn circle_to_circle(a: &Circle, b: &Circle) -> (res: bool)
    requires
        a.placed(),
        b.placed(),
    ensures
        res == discs_meet(a.p@, a.r as int, b.p@, b.r as int),
{
    let r: i128 = (a.r + b.r) as i128;
    proof {
        lemma_product_bound(r as int, r as int, 131072, 131072);
    }
    distance_sq(a.p, b.p) <= r * r
}

/// How far `x` lies outside the interval from `lo` to `hi`.
pub fn outside_by(x: i64, lo: i64, hi: i64) -> (r: i128)
    requires
        within(x as int, WORLD as int),
        within(lo as int, LIMIT as int),
        within(hi as int, LIMIT as int),
    ensures
        r == overshoot(x as int, lo as int, hi as int),
        within(r as int, 524288),
{
    if x < lo {
        (lo - x) as i128
    } else if x > hi {
        (x - hi) as i128
    } else {
        0
    }
}

/// Tells whether a circle and a box touch or overlap.
pub fn circle_to_aabb(a: &Circle, b: &AABB) -> (res: bool)
    requires
        a.placed(),
        b.wf(),
    ensures
        res == disc_meets_rect(a.p@, a.r as int, b.min@, b.max@),
{
    let dx = outside_by(a.p.x, b.min.x, b.max.x);
    let dy = outside_by(a.p.y, b.min.y, b.max.y);
    let r: i128 = a.r as i128;
    proof {
        lemma_product_bound(dx as int, dx as int, 524288, 524288);
        lemma_product_bound(dy as int, dy as int, 524288, 524288);
        lemma_product_bound(r as int, r as int, 65536, 65536);
    }
    dx * dx + dy * dy <= r * r
}

/// Tells whether a circle and a capsule touch or overlap.
pub fn circle_to_capsule(a: &Circle, b: &Capsule) -> (res: bool)
    requires
        a.placed(),
        b.placed(),
    ensures
        res == disc_meets_pill(a.p@, a.r as int, b.a@, b.b@, b.r as int),
{
    point_near_segment(b.a, b.b, a.p, a.r + b.r)
}

/// Tells whether a circle and a polygon touch or overlap.
pub fn circle_to_poly(a: &Circle, b: &Poly) -> (res: bool)
    requires
        a.placed(),
        b.placed(),
    ensures
        res == disc_meets_hull(a.p@, a.r as int, b@),
{
    if contains(b, a.p) {
        return true;
    }
    let mut i: usize = 0;
    while i < b.count
        invariant
            0 <= i <= b.count,
            a.placed(),
            b.placed(),
            forall|k: int|
                0 <= k < i ==> !#[trigger] near_segment(
                    b@[k],
                    b@[next_index(k, b@.len() as int)],
                    a.p@,
                    a.r as int,
                ),
        decreases b.count - i,
    {
        let j = b.next(i);
        if point_near_segment(b.verts[i], b.verts[j], a.p, a.r) {
            assert(near_segment(
                b@[i as int],
                b@[next_index(i as int, b@.len() as int)],
                a.p@,
                a.r as int,
            ));
            return true;
        }
        i = i + 1;
    }
    false
}

/// Tells whether two boxes touch or overlap.
pub fn aabb_to_aabb(a: &AABB, b: &AABB) -> (res: bool)
    ensures
        res == rects_meet(a.min@, a.max@, b.min@, b.max@),
{
    a.min.x <= b.max.x && b.min.x <= a.max.x && a.min.y <= b.max.y && b.min.y <= a.max.y
}

/// Tells whether a capsule and a polygon touch or overlap.
pub fn capsule_to_poly(a: &Capsule, b: &Poly) -> (res: bool)
    requires
        a.placed(),
        b.placed(),
    ensures
        res == pill_meets_hull(a.a@, a.b@, a.r as int, b@),
{
    if contains(b, a.a) || contains(b, a.b) {
        return true;
    }
    let mut i: usize = 0;
    while i < b.count
        invariant
            0 <= i <= b.count,
            a.placed(),
            b.placed(),
            forall|k: int|
                0 <= k < i ==> !#[trigger] segments_near(
                    a.a@,
                    a.b@,
                    b@[k],
                    b@[next_index(k, b@.len() as int)],
                    a.r as int,
                ),
        decreases b.count - i,
    {
        let j = b.next(i);
        if segments_within(a.a, a.b, b.verts[i], b.verts[j], a.r) {
            assert(segments_near(
                a.a@,
                a.b@,
                b@[i as int],
                b@[next_index(i as int, b@.len() as int)],
                a.r as int,
            ));
            return true;
        }
        i = i + 1;
    }
    false
}

/// Tells whether a box and a capsule touch or overlap; the box stands for the
/// polygon of its corners.
pub fn aabb_to_capsule(a: &AABB, b: &Capsule) -> (res: bool)
    requires
        a.wf(),
        b.placed(),
    ensures
        res == pill_meets_hull(b.a@, b.b@, b.r as int, corners(a.min@, a.max@)),
{
    let p = a.to_poly();
    capsule_to_poly(b, &p)
}

/// Tells whether two polygons touch or overlap: whether no edge of either is
/// a separating axis.
pub fn poly_to_poly(a: &Poly, b: &Poly) -> (res: bool)
    requires
        a.placed(),
        b.placed(),
    ensures
        res == hulls_meet(a@, b@),
{
    !separated_by_edge(a, b) && !separated_by_edge(b, a)
}

/// Tells whether a box and a polygon touch or overlap; the box stands for the
/// polygon of its corners.
pub fn aabb_to_poly(a: &AABB, b: &Poly) -> (res: bool)
    requires
        a.wf(),
        b.placed(),
    ensures
        res == hulls_meet(corners(a.min@, a.max@), b@),
{
    let p = a.to_poly();
    poly_to_poly(&p, b)
}

/// Tells whether two capsules touch or overlap.
pub fn capsule_to_capsule(a: &Capsule, b: &Capsule) -> (res: bool)
    requires
        a.placed(),
        b.placed(),
    ensures
        res == pills_meet(a.a@, a.b@, a.r as int, b.a@, b.b@, b.r as int),
{
    segments_within(a.a, a.b, b.a, b.b, a.r + b.r)
}

/// The type of the shape
#[derive(Clone, Copy, Debug, PartialEq, Eq, Structural)]
pub enum Type {
    Circle,
    AABB,
    Capsule,
    Poly,
}

/// A shape in its place in the world.
#[derive(Clone, Copy, Debug)]
pub enum Solid {
    Circle(Circle),
    AABB(AABB),
    Capsule(Capsule),
    Poly(Poly),
}

impl Solid {
    /// The shape is a valid placed shape of its kind.
    pub open spec fn placed(self) -> bool {
        match self {
            Solid::Circle(c) => c.placed(),
            Solid::AABB(b) => b.wf(),
            Solid::Capsule(c) => c.placed(),
            Solid::Poly(p) => p.placed(),
        }
    }

    /// The figure that the shape stands for.
    pub open spec fn figure(self) -> Figure {
        match self {
            Solid::Circle(c) => Figure::Disc { c: c.p@, r: c.r as int },
            Solid::AABB(b) => Figure::Rect { lo: b.min@, hi: b.max@ },
            Solid::Capsule(c) => Figure::Pill { a: c.a@, b: c.b@, r: c.r as int },
            Solid::Poly(p) => Figure::Hull { v: p@ },
        }
    }

    /// Every vertex of the shape lies within `REACH`, as after placing it.
    pub open spec fn reach(self) -> bool {
        match self {
            Solid::Circle(c) => c.p@.bounded(REACH as int),
            Solid::AABB(b) => true,
            Solid::Capsule(c) => true,
            Solid::Poly(p) => p.reach(),
        }
    }

    /// The kind of the shape.
    pub fn shape_type(&self) -> (t: Type)
        ensures
            t == match self {
                Solid::Circle(_) => Type::Circle,
                Solid::AABB(_) => Type::AABB,
                Solid::Capsule(_) => Type::Capsule,
                Solid::Poly(_) => Type::Poly,
            },
    {
        match self {
            Solid::Circle(_) => Type::Circle,
            Solid::AABB(_) => Type::AABB,
            Solid::Capsule(_) => Type::Capsule,
            Solid::Poly(_) => Type::Poly,
        }
    }
}

/// A shape of one of the four kinds, with the transformation that places it in
/// the world, if it has one. A box stays where it is and is never turned: a
/// transformation that comes with a box is not applied.
#[derive(Clone, Copy, Debug)]
pub enum Body {
    Circle(Circle, Option<Transformation>),
    AABB(AABB, Option<Transformation>),
    Capsule(Capsule, Option<Transformation>),
    Poly(Poly, Option<Transformation>),
}

impl Body {
    /// The transformation that comes with the shape.
    pub open spec fn transformation(self) -> Option<Transformation> {
        match self {
            Body::Circle(_, x) => x,
            Body::AABB(_, x) => x,
            Body::Capsule(_, x) => x,
            Body::Poly(_, x) => x,
        }
    }

    /// The shape is well formed, and so is its transformation.
    pub open spec fn wf(self) -> bool {
        &&& match self {
            Body::Circle(c, _) => c.wf(),
            Body::AABB(b, _) => b.wf(),
            Body::Capsule(c, _) => c.wf(),
            Body::Poly(p, _) => p.wf(),
        }
        &&& self.transformation() matches Some(t) ==> t.wf()
    }

    /// The figure that the shape stands for in its place in the world.
    pub open spec fn figure(self) -> Figure {
        match self {
            Body::Circle(c, x) => Figure::Disc { c: place_point(x, c.p@), r: c.r as int },
            Body::AABB(b, _) => Figure::Rect { lo: b.min@, hi: b.max@ },
            Body::Capsule(c, x) => Figure::Pill {
                a: place_point(x, c.a@),
                b: place_point(x, c.b@),
                r: c.r as int,
            },
            Body::Poly(p, x) => Figure::Hull {
                v: Seq::new(p.count as nat, |i: int| place_point(x, p.verts[i]@)),
            },
        }
    }

    /// Places the shape in the world.
    pub fn place(&self) -> (s: Solid)
        requires
            self.wf(),
        ensures
            s.placed(),
            s.reach(),
            s.figure() == self.figure(),
    {
        match self {
            Body::Circle(c, x) => Solid::Circle(c.place(x)),
            Body::AABB(b, _) => Solid::AABB(*b),
            Body::Capsule(c, x) => Solid::Capsule(c.place(x)),
            Body::Poly(p, x) => {
                let w = p.place(x);
                assert(w@ =~= Seq::new(p.count as nat, |i: int| place_point(*x, p.verts[i]@)));
                Solid::Poly(w)
            },
        }
    }
}

/// Tells whether two placed shapes touch or overlap, by the test of their pair
/// of kinds.
pub fn solids_collide(a: &Solid, b: &Solid) -> (res: bool)
    requires
        a.placed(),
        b.placed(),
    ensures
        res == meets(a.figure(), b.figure()),
{
    match (a, b) {
        (Solid::Circle(x), Solid::Circle(y)) => circle_to_circle(x, y),
        (Solid::Circle(x), Solid::AABB(y)) => circle_to_aabb(x, y),
        (Solid::AABB(x), Solid::Circle(y)) => circle_to_aabb(y, x),
        (Solid::Circle(x), Solid::Capsule(y)) => circle_to_capsule(x, y),
        (Solid::Capsule(x), Solid::Circle(y)) => circle_to_capsule(y, x),
        (Solid::Circle(x), Solid::Poly(y)) => circle_to_poly(x, y),
        (Solid::Poly(x), Solid::Circle(y)) => circle_to_poly(y, x),
        (Solid::AABB(x), Solid::AABB(y)) => aabb_to_aabb(x, y),
        (Solid::AABB(x), Solid::Capsule(y)) => aabb_to_capsule(x, y),
        (Solid::Capsule(x), Solid::AABB(y)) => aabb_to_capsule(y, x),
        (Solid::AABB(x), Solid::Poly(y)) => aabb_to_poly(x, y),
        (Solid::Poly(x), Solid::AABB(y)) => aabb_to_poly(y, x),
        (Solid::Capsule(x), Solid::Capsule(y)) => capsule_to_capsule(x, y),
        (Solid::Capsule(x), Solid::Poly(y)) => capsule_to_poly(x, y),
        (Solid::Poly(x), Solid::Capsule(y)) => capsule_to_poly(y, x),
        (Solid::Poly(x), Solid::Poly(y)) => poly_to_poly(x, y),
    }
}

/// Tells whether two shapes touch or overlap once each is placed in the world.
pub fn collides(a: &Body, b: &Body) -> (res: bool)
    requires
        a.wf(),
        b.wf(),
    ensures
        res == meets(a.figure(), b.figure()),
{
    let x = a.place();
    let y = b.place();
    solids_collide(&x, &y)
}

} // verus!
