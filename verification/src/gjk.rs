//! The GJK distance engine: the distance of two convex shapes, found by
//! refining a simplex of points of their Minkowski difference.

use vstd::prelude::*;
use crate::collide::{Body, Solid};
use crate::model::{corners, Figure};
use crate::scalar::{
    abs_i128, floor_sqrt, isqrt, lemma_product_bound, lemma_square_monotone, magnitude, trunc_div,
    within, LIMIT, REACH,
};
use crate::vec2::{delta, mix, mix3, stretch, stretch_by, unit, unit_of, Point, Vec2, WIDE};

verus! {

/// The largest number of refinements of the simplex in one query.
pub const GJK_ITERATIONS: i32 = 20;

/// The vertices of the convex core of a figure: a disc has its centre, a pill
/// the two ends of its segment, a rectangle its corners, a polygon its
/// vertices.
pub open spec fn frame(f: Figure) -> Seq<Point> {
    match f {
        Figure::Disc { c, r } => seq![c],
        Figure::Rect { lo, hi } => corners(lo, hi),
        Figure::Pill { a, b, r } => seq![a, b],
        Figure::Hull { v } => v,
    }
}

/// The radius by which a figure extends beyond its core.
pub open spec fn girth(f: Figure) -> int {
    match f {
        Figure::Disc { c, r } => r,
        Figure::Rect { lo, hi } => 0,
        Figure::Pill { a, b, r } => r,
        Figure::Hull { v } => 0,
    }
}

/// A placed shape as the engine sees it: the vertices of its core, and the
/// radius around them.
#[derive(Clone, Copy, Debug)]
pub struct Proxy {
    pub count: usize,
    pub verts: [Vec2; 8],
    pub radius: i64,
}

impl View for Proxy {
    type V = Seq<Point>;

    open spec fn view(&self) -> Seq<Point> {
        Seq::new(self.count as nat, |i: int| self.verts[i]@)
    }
}

impl Proxy {
    /// Every vertex lies within `REACH`, as after placing a shape.
    pub open spec fn reach(self) -> bool {
        forall|i: int| 0 <= i < self.count ==> (#[trigger] self.verts[i])@.bounded(REACH as int)
    }

    /// One to eight vertices, each within `WORLD`, and a radius in
    /// `[0, LIMIT]`.
    pub open spec fn wf(self) -> bool {
        &&& 1 <= self.count <= 8
        &&& 0 <= self.radius <= LIMIT
        &&& forall|i: int| 0 <= i < self.count ==> (#[trigger] self.verts[i]).in_world()
    }
}

impl Solid {
    /// The core and the radius of the shape.
    pub fn proxy(&self) -> (p: Proxy)
        requires
            self.placed(),
        ensures
            p.wf(),
            p@ == frame(self.figure()),
            p.radius == girth(self.figure()),
            self.reach() ==> p.reach(),
    {
        match self {
            Solid::Circle(c) => {
                let p = Proxy { count: 1, verts: [c.p; 8], radius: c.r };
                assert(p@ =~= frame(self.figure()));
                p
            },
            Solid::AABB(b) => {
                let q = b.to_poly();
                let p = Proxy { count: 4, verts: q.verts, radius: 0 };
                assert(p@ =~= q@);
                p
            },
            Solid::Capsule(c) => {
                let a = c.a;
                let b = c.b;
                let p = Proxy { count: 2, verts: [a, b, a, a, a, a, a, a], radius: c.r };
                assert(p@ =~= frame(self.figure()));
                p
            },
            Solid::Poly(q) => {
                let p = Proxy { count: q.count, verts: q.verts, radius: 0 };
                assert(p@ =~= q@);
                p
            },
        }
    }
}

/// The vertex of the Minkowski difference of `b` and `a` that belongs to
/// vertex `i` of `a` and vertex `j` of `b`: the vector from the one to the
/// other.
pub open spec fn diff(a: Seq<Point>, b: Seq<Point>, i: int, j: int) -> Point {
    b[j].minus(a[i])
}

/// No vertex of the Minkowski difference of `b` and `a` lies beyond the line
/// of the points `x` with `x . d == m`, seen along `d`.
pub open spec fn supports(a: Seq<Point>, b: Seq<Point>, d: Point, m: int) -> bool {
    forall|i: int, j: int|
        0 <= i < a.len() && 0 <= j < b.len() ==> (#[trigger] diff(a, b, i, j)).dot(d) <= m
}

/// The origin lies in the point, on the segment or in the triangle of the
/// points `ws`.
pub open spec fn holds_origin(ws: Seq<Point>) -> bool {
    if ws.len() == 1 {
        ws[0].x == 0 && ws[0].y == 0
    } else if ws.len() == 2 {
        let e = ws[1].minus(ws[0]);
        ws[0].cross(e) == 0 && 0 < -ws[0].dot(e) < e.norm_sq()
    } else {
        let c01 = ws[0].cross(ws[1]);
        let c12 = ws[1].cross(ws[2]);
        let c20 = ws[2].cross(ws[0]);
        ws.len() == 3 && c01 + c12 + c20 != 0 && ((c01 >= 0 && c12 >= 0 && c20 >= 0) || (c01 <= 0
            && c12 <= 0 && c20 <= 0))
    }
}

/// The point of `ws` (one point, or a segment) that is nearest to the origin
/// lies on the line of the points `x` with `x . d == m`, and `d` points from
/// it to the origin. For one point, `d` is the vector from the point to the
/// origin. For a segment, the foot of the origin lies strictly inside it, and
/// `d` is the normal of the segment on the side of the origin, with the
/// segment's length.
pub open spec fn attains(ws: Seq<Point>, d: Point, m: int) -> bool {
    if ws.len() == 1 {
        d == ws[0].neg() && m == -ws[0].norm_sq() && m < 0
    } else {
        let e = ws[1].minus(ws[0]);
        let c = ws[0].cross(e);
        &&& ws.len() == 2
        &&& 0 < -ws[0].dot(e) < e.norm_sq()
        &&& (c > 0 && d == e.perp().neg() && m == -c) || (c < 0 && d == e.perp() && m == c)
    }
}

/// The dot product of two vectors within `WIDE`.
pub fn wide_dot(a: Vec2, b: Vec2) -> (r: i128)
    requires
        a@.bounded(WIDE as int),
        b@.bounded(WIDE as int),
    ensures
        r == a@.dot(b@),
        within(r as int, 2199023255552),
{
    proof {
        lemma_product_bound(a.x as int, b.x as int, WIDE as int, WIDE as int);
        lemma_product_bound(a.y as int, b.y as int, WIDE as int, WIDE as int);
    }
    (a.x as i128) * (b.x as i128) + (a.y as i128) * (b.y as i128)
}

/// The cross product of two vectors within `WIDE`.
pub fn wide_cross(a: Vec2, b: Vec2) -> (r: i128)
    requires
        a@.bounded(WIDE as int),
        b@.bounded(WIDE as int),
    ensures
        r == a@.cross(b@),
        within(r as int, 2199023255552),
{
    proof {
        lemma_product_bound(a.x as int, b.y as int, WIDE as int, WIDE as int);
        lemma_product_bound(a.y as int, b.x as int, WIDE as int, WIDE as int);
    }
    (a.x as i128) * (b.y as i128) - (a.y as i128) * (b.x as i128)
}

/// The index of the first of the first `k` points of `v` that lies farthest
/// along `d`.
pub open spec fn support_index(v: Seq<Point>, d: Point, k: int) -> int
    decreases k,
{
    if k <= 1 {
        0
    } else {
        let prev = support_index(v, d, k - 1);
        if v[k - 1].dot(d) > v[prev].dot(d) {
            k - 1
        } else {
            prev
        }
    }
}

/// The index of the first vertex of `p` that lies farthest along `d`.
pub fn support(p: &Proxy, d: Vec2) -> (k: usize)
    requires
        p.wf(),
        d@.bounded(WIDE as int),
    ensures
        k < p.count,
        k == support_index(p@, d@, p.count as int),
        forall|i: int| 0 <= i < p.count ==> (#[trigger] p@[i]).dot(d@) <= p@[k as int].dot(d@),
{
    let mut k: usize = 0;
    let mut best: i128 = wide_dot(p.verts[0], d);
    let mut i: usize = 1;
    while i < p.count
        invariant
            1 <= i <= p.count,
            p.wf(),
            d@.bounded(WIDE as int),
            k < i,
            k == support_index(p@, d@, i as int),
            best == p@[k as int].dot(d@),
            forall|j: int| 0 <= j < i ==> (#[trigger] p@[j]).dot(d@) <= best,
        decreases p.count - i,
    {
        let v = wide_dot(p.verts[i], d);
        assert(p@[i as int] == p.verts[i as int]@);
        if v > best {
            best = v;
            k = i;
        }
        i = i + 1;
    }
    k
}

/// The simplex that a query ended with, kept to start the next query on the
/// same pair of shapes: up to three pairs of a vertex of the first shape and a
/// vertex of the second. A hint only: a cache that does not fit the shapes is
/// not used.
#[derive(Clone, Copy, Debug)]
pub struct GjkCache {
    pub count: usize,
    pub ia: [usize; 3],
    pub ib: [usize; 3],
}

impl GjkCache {
    /// The cache that holds nothing.
    pub fn new() -> (c: GjkCache)
        ensures
            c.count == 0,
    {
        GjkCache { count: 0, ia: [0; 3], ib: [0; 3] }
    }

    /// The cache holds one to three pairs of a vertex of a shape of `na`
    /// vertices and a vertex of a shape of `nb` vertices.
    pub open spec fn fits(self, na: int, nb: int) -> bool {
        &&& 1 <= self.count <= 3
        &&& forall|k: int| 0 <= k < self.count ==> (#[trigger] self.ia[k]) < na && self.ib[k] < nb
    }

    /// The pairs of vertices that the cache holds.
    pub open spec fn pairs(self) -> Seq<(int, int)> {
        Seq::new(self.count as nat, |k: int| (self.ia[k] as int, self.ib[k] as int))
    }

    /// The points of the Minkowski difference that the pairs stand for.
    pub open spec fn points(self, a: Seq<Point>, b: Seq<Point>) -> Seq<Point> {
        Seq::new(self.count as nat, |k: int| diff(a, b, self.ia[k] as int, self.ib[k] as int))
    }

    /// Tells whether the cache holds one to three pairs of vertices of `a` and
    /// `b`.
    pub fn check(&self, a: &Proxy, b: &Proxy) -> (r: bool)
        ensures
            r == self.fits(a.count as int, b.count as int),
    {
        if self.count < 1 || self.count > 3 {
            return false;
        }
        let mut k: usize = 0;
        while k < self.count
            invariant
                0 <= k <= self.count <= 3,
                forall|j: int|
                    0 <= j < k ==> (#[trigger] self.ia[j]) < a.count && self.ib[j] < b.count,
            decreases self.count - k,
        {
            if self.ia[k] >= a.count || self.ib[k] >= b.count {
                return false;
            }
            k = k + 1;
        }
        true
    }
}

/// The part of a simplex that is nearest to the origin: the points of the
/// simplex with the indices `picks` (one point, the two ends of a segment, or
/// the three corners of a triangle that holds the origin), whether it holds
/// the origin, its squared distance `num / den` from the origin, and the line
/// `x . d == m` through its nearest point, with `d` pointing at the origin.
pub struct Part {
    pub picks: Seq<int>,
    pub hit: bool,
    pub num: int,
    pub den: int,
    pub d: Point,
    pub m: int,
}

/// Point `k` of the simplex `ws` as the part nearest to the origin.
pub open spec fn vertex_part(ws: Seq<Point>, k: int) -> Part {
    let w = ws[k];
    Part {
        picks: seq![k],
        hit: w.x == 0 && w.y == 0,
        num: w.norm_sq(),
        den: 1,
        d: w.neg(),
        m: -w.norm_sq(),
    }
}

/// The segment between the points `p` and `q` of the simplex `ws` as the part
/// nearest to the origin, where the foot of the origin lies strictly inside
/// it.
pub open spec fn edge_part(ws: Seq<Point>, p: int, q: int) -> Option<Part> {
    let e = ws[q].minus(ws[p]);
    let t = -ws[p].dot(e);
    let c = ws[p].cross(e);
    if 0 < t < e.norm_sq() {
        Some(
            Part {
                picks: seq![p, q],
                hit: c == 0,
                num: c * c,
                den: e.norm_sq(),
                d: if c > 0 {
                    e.perp().neg()
                } else {
                    e.perp()
                },
                m: if c > 0 {
                    -c
                } else {
                    c
                },
            },
        )
    } else {
        None
    }
}

/// The triangle of the three points of the simplex `ws`, where it has an area
/// and holds the origin.
pub open spec fn triangle_part(ws: Seq<Point>) -> Option<Part> {
    let c01 = ws[0].cross(ws[1]);
    let c12 = ws[1].cross(ws[2]);
    let c20 = ws[2].cross(ws[0]);
    if c01 + c12 + c20 != 0 && ((c01 >= 0 && c12 >= 0 && c20 >= 0) || (c01 <= 0 && c12 <= 0 && c20
        <= 0)) {
        Some(
            Part {
                picks: seq![0, 1, 2],
                hit: true,
                num: 0,
                den: 1,
                d: Point { x: 0, y: 0 },
                m: 0,
            },
        )
    } else {
        None
    }
}

/// The nearer to the origin of two parts of a simplex; of two at the same
/// distance, the first.
pub open spec fn nearer_part(x: Part, y: Part) -> Part {
    if y.num * x.den < x.num * y.den {
        y
    } else {
        x
    }
}

/// The best part so far, after another part is looked at: a part that holds
/// the origin is kept whatever follows, and is taken as soon as it is seen;
/// otherwise the nearer part is kept.
pub open spec fn consider(best: Part, next: Option<Part>) -> Part {
    if best.hit {
        best
    } else {
        match next {
            Some(f) => if f.hit {
                f
            } else {
                nearer_part(best, f)
            },
            None => best,
        }
    }
}

/// The part of a simplex of one to three points that is nearest to the
/// origin. The parts are looked at in the order of the first point, the second
/// point, the segment between them, the third point, the segment from the
/// second to the third, the segment from the third to the first, and the
/// triangle.
pub open spec fn solve_part(ws: Seq<Point>) -> Part {
    let one = vertex_part(ws, 0);
    let two = consider(consider(one, Some(vertex_part(ws, 1))), edge_part(ws, 0, 1));
    let three = consider(
        consider(
            consider(consider(two, Some(vertex_part(ws, 2))), edge_part(ws, 1, 2)),
            edge_part(ws, 2, 0),
        ),
        triangle_part(ws),
    );
    if ws.len() <= 1 {
        one
    } else if ws.len() == 2 {
        two
    } else {
        three
    }
}

/// What a query of the engine finds: the model of `Closest`.
pub struct Outcome {
    pub pairs: Seq<(int, int)>,
    pub hit: bool,
    pub d: Point,
    pub m: int,
    pub iterations: int,
    pub exact: bool,
}

/// The points of the Minkowski difference of `b` and `a` that the pairs `s`
/// of a vertex of `a` and a vertex of `b` stand for.
pub open spec fn pair_points(s: Seq<(int, int)>, a: Seq<Point>, b: Seq<Point>) -> Seq<Point> {
    Seq::new(s.len(), |k: int| diff(a, b, s[k].0, s[k].1))
}

/// The refinement of the simplex `s` of the shapes with the vertices `a` and
/// `b`, after `iter` refinements were made.
///
/// The part of the simplex nearest to the origin is found, and the simplex is
/// cut down to it. Where that part holds the origin, the shapes share a point
/// and the query is at its end. Otherwise the vertex of the Minkowski
/// difference that lies farthest toward the origin is looked up. Where it lies
/// no farther than the part itself, the part is the nearest of the whole
/// difference, and the query is at its end. Otherwise the vertex joins the
/// simplex, unless `GJK_ITERATIONS` refinements were made: then the query
/// ends with what it has.
pub open spec fn refine(a: Seq<Point>, b: Seq<Point>, s: Seq<(int, int)>, iter: int) -> Outcome
    decreases GJK_ITERATIONS - iter,
{
    let f = solve_part(pair_points(s, a, b));
    let t = Seq::new(f.picks.len(), |k: int| s[f.picks[k]]);
    let ia = support_index(a, f.d.neg(), a.len() as int);
    let ib = support_index(b, f.d, b.len() as int);
    if f.hit {
        Outcome { pairs: t, hit: true, d: f.d, m: f.m, iterations: iter + 1, exact: true }
    } else if diff(a, b, ia, ib).dot(f.d) <= f.m {
        Outcome { pairs: t, hit: false, d: f.d, m: f.m, iterations: iter + 1, exact: true }
    } else if iter + 1 >= GJK_ITERATIONS {
        Outcome { pairs: t, hit: false, d: f.d, m: f.m, iterations: iter + 1, exact: false }
    } else {
        refine(a, b, t.push((ia, ib)), iter + 1)
    }
}

/// What the query of the engine for the shapes with the vertices `a` and `b`
/// finds when it starts from the cache `seed`: the refinement of the simplex
/// of the cache where that fits the shapes, and otherwise of the simplex of
/// the first vertex of each shape.
pub open spec fn gjk_run(a: Seq<Point>, b: Seq<Point>, seed: GjkCache) -> Outcome {
    if seed.fits(a.len() as int, b.len() as int) {
        refine(a, b, seed.pairs(), 0)
    } else {
        refine(a, b, seq![(0int, 0int)], 0)
    }
}

/// What the query of the engine finds when it starts without a cache.
pub open spec fn gjk_cold(a: Seq<Point>, b: Seq<Point>) -> Outcome {
    refine(a, b, seq![(0int, 0int)], 0)
}

/// The distance that a query reports for what the engine found for two shapes
/// with the radii `ra` and `rb`: zero for shapes that share a point; without
/// the radii the distance of the cores, rounded down; with them, what that
/// distance exceeds the sum of the radii by, and zero where it does not.
pub open spec fn reply_distance(o: Outcome, ra: int, rb: int, use_radius: bool) -> int {
    let dist = floor_sqrt((o.m * o.m) / o.d.norm_sq());
    if o.hit {
        0
    } else if !use_radius {
        dist
    } else if dist > ra + rb {
        dist - ra - rb
    } else {
        0
    }
}

/// The part of a simplex that is nearest to the origin: the points `p` and
/// `q` of the simplex (`n` is 2), the point `p` alone (`n` is 1) or, where the
/// origin lies in a triangle, all three (`n` is 3). `num / den` is its squared
/// distance from the origin.
struct Feature {
    n: usize,
    p: usize,
    q: usize,
    hit: bool,
    num: i128,
    den: i128,
    d: Vec2,
    m: i128,
}

impl Feature {
    spec fn model(self) -> Part {
        Part {
            picks: if self.n == 1 {
                seq![self.p as int]
            } else if self.n == 2 {
                seq![self.p as int, self.q as int]
            } else {
                seq![0int, 1int, 2int]
            },
            hit: self.hit,
            num: self.num as int,
            den: self.den as int,
            d: self.d@,
            m: self.m as int,
        }
    }

    spec fn picks(self, ws: Seq<Point>) -> Seq<Point> {
        if self.n == 1 {
            seq![ws[self.p as int]]
        } else if self.n == 2 {
            seq![ws[self.p as int], ws[self.q as int]]
        } else {
            ws
        }
    }

    spec fn sound(self, ws: Seq<Point>) -> bool {
        &&& 1 <= self.n <= 3
        &&& self.p < ws.len()
        &&& self.n == 2 ==> self.q < ws.len()
        &&& self.n == 3 ==> self.hit && ws.len() == 3
        &&& self.hit ==> holds_origin(self.picks(ws))
        &&& !self.hit ==> attains(self.picks(ws), self.d@, self.m as int) && self.m < 0
        &&& 0 <= self.num <= 0x4_0000_0000_0000_0000_0000
        &&& 1 <= self.den <= 2199023255552
        &&& self.d@.bounded(WIDE as int)
        &&& within(self.m as int, 2199023255552)
    }
}

/// The squared length of a vector other than the zero vector is positive.
proof fn lemma_norm_positive(w: Point)
    by (nonlinear_arith)
    requires
        w.x != 0 || w.y != 0,
    ensures
        w.norm_sq() > 0,
{
}

/// A point of a simplex as the part nearest to the origin.
fn vertex_feature(w: Vec2, k: usize, Ghost(ws): Ghost<Seq<Point>>) -> (f: Feature)
    requires
        w.in_span(),
        k < ws.len(),
        ws[k as int] == w@,
    ensures
        f.sound(ws),
        f.n == 1,
        f.p == k,
        f.model() == vertex_part(ws, k as int),
{
    let q = wide_dot(w, w);
    proof {
        if w.x != 0 || w.y != 0 {
            lemma_norm_positive(w@);
        }
    }
    let f = Feature {
        n: 1,
        p: k,
        q: k,
        hit: w.x == 0 && w.y == 0,
        num: q,
        den: 1,
        d: Vec2 { x: -w.x, y: -w.y },
        m: -q,
    };
    assert(f.picks(ws) =~= seq![w@]);
    f
}

/// The segment between two points of a simplex as the part nearest to the
/// origin, where the foot of the origin lies strictly inside it.
fn edge_feature(w0: Vec2, w1: Vec2, p: usize, q: usize, Ghost(ws): Ghost<Seq<Point>>) -> (r:
    Option<Feature>)
    requires
        w0.in_span(),
        w1.in_span(),
        p < ws.len(),
        q < ws.len(),
        ws[p as int] == w0@,
        ws[q as int] == w1@,
    ensures
        r matches Some(f) ==> f.sound(ws) && f.n == 2 && f.p == p && f.q == q,
        match r {
            Some(f) => edge_part(ws, p as int, q as int) == Some(f.model()),
            None => edge_part(ws, p as int, q as int) is None,
        },
{
    let e = Vec2 { x: w1.x - w0.x, y: w1.y - w0.y };
    let ee = wide_dot(e, e);
    let t = -wide_dot(w0, e);
    if !(0 < t && t < ee) {
        return None;
    }
    let c = wide_cross(w0, e);
    proof {
        lemma_product_bound(c as int, c as int, 2199023255552, 2199023255552);
    }
    let f = Feature {
        n: 2,
        p,
        q,
        hit: c == 0,
        num: c * c,
        den: ee,
        d: if c > 0 {
            Vec2 { x: -e.y, y: e.x }
        } else {
            Vec2 { x: e.y, y: -e.x }
        },
        m: if c > 0 {
            -c
        } else {
            c
        },
    };
    proof {
        assert(f.picks(ws) =~= seq![w0@, w1@]);
        assert(c * c >= 0) by (nonlinear_arith);
    }
    Some(f)
}

/// The nearer to the origin of two parts of a simplex; of two at the same
/// distance, the first.
fn nearer(x: Feature, y: Feature, Ghost(ws): Ghost<Seq<Point>>) -> (f: Feature)
    requires
        x.sound(ws),
        y.sound(ws),
    ensures
        f.sound(ws),
        f == x || f == y,
        f.model() == nearer_part(x.model(), y.model()),
{
    proof {
        lemma_product_bound(
            y.num as int,
            x.den as int,
            0x4_0000_0000_0000_0000_0000,
            2199023255552,
        );
        lemma_product_bound(
            x.num as int,
            y.den as int,
            0x4_0000_0000_0000_0000_0000,
            2199023255552,
        );
    }
    if y.num * x.den < x.num * y.den {
        y
    } else {
        x
    }
}

/// The part of a simplex of one to three points that is nearest to the
/// origin.
fn solve(w: &[Vec2; 3], n: usize) -> (f: Feature)
    requires
        1 <= n <= 3,
        forall|k: int| 0 <= k < n ==> (#[trigger] w[k]).in_span(),
    ensures
        f.sound(Seq::new(n as nat, |k: int| w[k]@)),
        f.model() == solve_part(Seq::new(n as nat, |k: int| w[k]@)),
{
    let ghost ws = Seq::new(n as nat, |k: int| w[k]@);
    let mut best = vertex_feature(w[0], 0, Ghost(ws));
    if best.hit || n == 1 {
        return best;
    }
    let v1 = vertex_feature(w[1], 1, Ghost(ws));
    if v1.hit {
        return v1;
    }
    best = nearer(best, v1, Ghost(ws));
    match edge_feature(w[0], w[1], 0, 1, Ghost(ws)) {
        Some(f) => {
            if f.hit {
                return f;
            }
            best = nearer(best, f, Ghost(ws));
        },
        None => {},
    }
    if n == 2 {
        return best;
    }
    let v2 = vertex_feature(w[2], 2, Ghost(ws));
    if v2.hit {
        return v2;
    }
    best = nearer(best, v2, Ghost(ws));
    match edge_feature(w[1], w[2], 1, 2, Ghost(ws)) {
        Some(f) => {
            if f.hit {
                return f;
            }
            best = nearer(best, f, Ghost(ws));
        },
        None => {},
    }
    match edge_feature(w[2], w[0], 2, 0, Ghost(ws)) {
        Some(f) => {
            if f.hit {
                return f;
            }
            best = nearer(best, f, Ghost(ws));
        },
        None => {},
    }
    let c01 = wide_cross(w[0], w[1]);
    let c12 = wide_cross(w[1], w[2]);
    let c20 = wide_cross(w[2], w[0]);
    if c01 + c12 + c20 != 0 && ((c01 >= 0 && c12 >= 0 && c20 >= 0) || (c01 <= 0 && c12 <= 0 && c20
        <= 0)) {
        let f = Feature {
            n: 3,
            p: 0,
            q: 0,
            hit: true,
            num: 0,
            den: 1,
            d: Vec2 { x: 0, y: 0 },
            m: 0,
        };
        assert(f.picks(ws) == ws);
        assert(triangle_part(ws) == Some(f.model()));
        return f;
    }
    assert(triangle_part(ws) is None);
    best
}

/// The dot product with a difference is the difference of the dot products.
proof fn lemma_dot_difference(x: Point, y: Point, d: Point)
    by (nonlinear_arith)
    ensures
        y.minus(x).dot(d) == y.dot(d) + x.dot(d.neg()),
{
}

/// What a query of the engine found.
///
/// `simplex` holds the pairs of vertices whose points of the Minkowski
/// difference carry the result. Where `hit` is set, the origin lies in their
/// point, segment or triangle: the cores of the two shapes share a point.
/// Otherwise the point of theirs nearest to the origin lies on the line
/// `x . d == m`, with `d` pointing at the origin; where `exact` is set, no
/// vertex of the Minkowski difference lies beyond that line, so the cores are
/// `-m / |d|` apart, and otherwise the refinement stopped at its bound and the
/// cores are at most as far apart.
#[derive(Clone, Copy, Debug)]
pub struct Closest {
    pub simplex: GjkCache,
    pub hit: bool,
    pub d: Vec2,
    pub m: i128,
    pub iterations: i32,
    pub exact: bool,
}

impl View for Closest {
    type V = Outcome;

    open spec fn view(&self) -> Outcome {
        Outcome {
            pairs: self.simplex.pairs(),
            hit: self.hit,
            d: self.d@,
            m: self.m as int,
            iterations: self.iterations as int,
            exact: self.exact,
        }
    }
}

impl Closest {
    /// What `closest` promises of its result for two shapes with the vertices
    /// `a` and `b`.
    pub open spec fn describes(self, a: Seq<Point>, b: Seq<Point>) -> bool {
        &&& 1 <= self.iterations <= GJK_ITERATIONS
        &&& self.simplex.fits(a.len() as int, b.len() as int)
        &&& self.d@.bounded(WIDE as int)
        &&& within(self.m as int, 2199023255552)
        &&& self.hit ==> self.exact && holds_origin(self.simplex.points(a, b))
        &&& !self.hit ==> attains(self.simplex.points(a, b), self.d@, self.m as int)
        &&& !self.hit && self.exact ==> supports(a, b, self.d@, self.m as int)
    }
}

/// The engine: refines a simplex of points of the Minkowski difference of `b`
/// and `a` until the part of it nearest to the origin cannot be improved, the
/// origin lies in it, or `GJK_ITERATIONS` refinements are done. The simplex
/// starts from `seed` where that fits the shapes, and from the first vertex of
/// each shape otherwise.
pub fn closest(a: &Proxy, b: &Proxy, seed: &GjkCache) -> (r: Closest)
    requires
        a.wf(),
        b.wf(),
    ensures
        r.describes(a@, b@),
        r@ == gjk_run(a@, b@, *seed),
{
    let mut s = if seed.check(a, b) {
        *seed
    } else {
        GjkCache { count: 1, ia: [0; 3], ib: [0; 3] }
    };
    assert(!seed.fits(a.count as int, b.count as int) ==> s.pairs() =~= seq![(0int, 0int)]);
    let mut iter: i32 = 0;
    loop
        invariant
            0 <= iter < GJK_ITERATIONS,
            a.wf(),
            b.wf(),
            s.fits(a.count as int, b.count as int),
            refine(a@, b@, s.pairs(), iter as int) == gjk_run(a@, b@, *seed),
        decreases GJK_ITERATIONS - iter,
    {
        let ghost before = s.pairs();
        let ghost turn = iter as int;
        iter = iter + 1;
        let zero = Vec2 { x: 0, y: 0 };
        let mut w: [Vec2; 3] = [zero; 3];
        let mut k: usize = 0;
        while k < s.count
            invariant
                0 <= k <= s.count,
                a.wf(),
                b.wf(),
                s.fits(a.count as int, b.count as int),
                forall|j: int|
                    0 <= j < k ==> (#[trigger] w[j])@ == diff(
                        a@,
                        b@,
                        s.ia[j] as int,
                        s.ib[j] as int,
                    ) && w[j].in_span(),
            decreases s.count - k,
        {
            assert(s.ia[k as int] < a.count && s.ib[k as int] < b.count);
            let v = delta(b.verts[s.ib[k]], a.verts[s.ia[k]]);
            w[k] = v;
            k = k + 1;
        }
        let ghost ws = Seq::new(s.count as nat, |j: int| w[j]@);
        assert(ws =~= s.points(a@, b@));
        assert(ws =~= pair_points(before, a@, b@));
        let f = solve(&w, s.count);
        let t = if f.n == 1 {
            GjkCache { count: 1, ia: [s.ia[f.p]; 3], ib: [s.ib[f.p]; 3] }
        } else if f.n == 2 {
            GjkCache {
                count: 2,
                ia: [s.ia[f.p], s.ia[f.q], s.ia[f.p]],
                ib: [s.ib[f.p], s.ib[f.q], s.ib[f.p]],
            }
        } else {
            s
        };
        assert(t.fits(a.count as int, b.count as int)) by {
            assert(s.ia[f.p as int] < a.count && s.ib[f.p as int] < b.count);
            if f.n == 2 {
                assert(s.ia[f.q as int] < a.count && s.ib[f.q as int] < b.count);
            }
        }
        assert(t.points(a@, b@) =~= f.picks(ws));
        assert(t.pairs() =~= Seq::new(f.model().picks.len(), |k: int| before[f.model().picks[k]]));
        s = t;
        if f.hit {
            return Closest { simplex: s, hit: true, d: f.d, m: f.m, iterations: iter, exact: true };
        }
        let d = f.d;
        let ia = support(a, Vec2 { x: -d.x, y: -d.y });
        let ib = support(b, d);
        let v = delta(b.verts[ib], a.verts[ia]);
        let reach = wide_dot(v, d);
        if reach <= f.m {
            proof {
                assert forall|i: int, j: int| 0 <= i < a@.len() && 0 <= j < b@.len() implies (
                #[trigger] diff(a@, b@, i, j)).dot(d@) <= f.m by {
                    lemma_dot_difference(a@[i], b@[j], d@);
                    lemma_dot_difference(a@[ia as int], b@[ib as int], d@);
                    assert(a@[i].dot(d@.neg()) <= a@[ia as int].dot(d@.neg()));
                    assert(b@[j].dot(d@) <= b@[ib as int].dot(d@));
                }
            }
            return Closest { simplex: s, hit: false, d, m: f.m, iterations: iter, exact: true };
        }
        if iter == GJK_ITERATIONS {
            return Closest { simplex: s, hit: false, d, m: f.m, iterations: iter, exact: false };
        }
        let ghost cut = s.pairs();
        let n = s.count;
        s.ia[n] = ia;
        s.ib[n] = ib;
        s.count = n + 1;
        assert(s.pairs() =~= cut.push((ia as int, ib as int)));
    }
}


impl Closest {
    /// The point that the result rests on in the core with the vertices `a`,
    /// of which the simplex holds those with the indices `ia`: the vertex of
    /// the simplex, the point of its segment whose difference is nearest to
    /// the origin, or the point of its triangle whose difference is the
    /// origin.
    pub open spec fn anchor(self, a: Seq<Point>, ia: [usize; 3], ws: Seq<Point>) -> Point {
        let s = self.simplex;
        let a0 = a[ia[0] as int];
        let a1 = a[ia[1] as int];
        let a2 = a[ia[2] as int];
        if s.count == 1 {
            a0
        } else if s.count == 2 {
            let e = ws[1].minus(ws[0]);
            let t = -ws[0].dot(e);
            mix3(a0, e.norm_sq() - t, a1, t, a0, 0)
        } else {
            mix3(
                a0,
                magnitude(ws[1].cross(ws[2])),
                a1,
                magnitude(ws[2].cross(ws[0])),
                a2,
                magnitude(ws[0].cross(ws[1])),
            )
        }
    }

    /// The distance of the two cores, rounded down.
    pub open spec fn span(self) -> int {
        if self.hit {
            0
        } else {
            floor_sqrt((self.m * self.m) / self.d@.norm_sq())
        }
    }
}

/// What a query answers: the distance of the two shapes and a closest point
/// on each. The model of `GjkResponse`.
pub struct Answer {
    pub distance: int,
    pub a: Point,
    pub b: Point,
}

/// The midpoint of two points, rounded toward the first.
pub open spec fn midpoint(p: Point, q: Point) -> Point {
    Point { x: p.x + trunc_div(q.x - p.x, 2), y: p.y + trunc_div(q.y - p.y, 2) }
}

/// The answer that belongs to what the engine found for two shapes with the
/// vertices `a` and `b` and the radii `ra` and `rb`.
///
/// Cores that share a point are at distance zero, and the point is given for
/// both. Without the radii the answer is the distance of the cores, rounded
/// down, and the points they are nearest at. With the radii, shapes whose
/// cores are farther apart than the sum of the radii are apart by the rest,
/// and each point is moved by its radius toward the other shape; otherwise the
/// shapes overlap, the distance is zero and both points are the midpoint.
pub open spec fn respond(
    c: Closest,
    a: Seq<Point>,
    ra: int,
    b: Seq<Point>,
    rb: int,
    use_radius: bool,
) -> Answer {
    let ws = c.simplex.points(a, b);
    let pa = c.anchor(a, c.simplex.ia, ws);
    let pb = c.anchor(b, c.simplex.ib, ws);
    let dist = c.span();
    if c.hit {
        Answer { distance: 0, a: pa, b: pa }
    } else if !use_radius {
        Answer { distance: dist, a: pa, b: pb }
    } else if dist > ra + rb {
        let n = unit(c.d@.neg());
        Answer {
            distance: dist - ra - rb,
            a: pa.plus(stretch(n, ra)),
            b: pb.minus(stretch(n, rb)),
        }
    } else {
        let mid = midpoint(pa, pb);
        Answer { distance: 0, a: mid, b: mid }
    }
}

/// The result of the GJK function
#[derive(Clone, Copy, Debug)]
pub struct GjkResponse {
    pub distance: i64,
    pub closest_points: (Vec2, Vec2),
    pub iterations: i32,
    pub exact: bool,
    pub found: Closest,
}

impl View for GjkResponse {
    type V = Answer;

    open spec fn view(&self) -> Answer {
        Answer {
            distance: self.distance as int,
            a: self.closest_points.0@,
            b: self.closest_points.1@,
        }
    }
}

impl GjkResponse {
    /// The distance of the two shapes, rounded down.
    pub fn distance(self) -> (d: i64)
        ensures
            d == self.distance,
    {
        self.distance
    }

    /// A closest point on the first shape and one on the second.
    pub fn closest_points(self) -> (p: (Vec2, Vec2))
        ensures
            p == self.closest_points,
    {
        self.closest_points
    }

    /// The number of refinements of the simplex that the query made.
    pub fn iterations(self) -> (n: i32)
        ensures
            n == self.iterations,
    {
        self.iterations
    }

    /// Whether the refinement came to its end within `GJK_ITERATIONS` steps,
    /// so that the distance is the distance of the shapes and not only a bound
    /// on it.
    pub fn is_exact(self) -> (e: bool)
        ensures
            e == self.exact,
    {
        self.exact
    }
}

/// The points of the two cores that the result of the engine rests on.
fn anchors(c: &Closest, a: &Proxy, b: &Proxy) -> (r: (Vec2, Vec2))
    requires
        a.wf(),
        b.wf(),
        c.describes(a@, b@),
    ensures
        r.0@ == c.anchor(a@, c.simplex.ia, c.simplex.points(a@, b@)),
        r.1@ == c.anchor(b@, c.simplex.ib, c.simplex.points(a@, b@)),
        r.0.in_world(),
        r.1.in_world(),
{
    let s = &c.simplex;
    let ghost ws = s.points(a@, b@);
    assert(s.ia[0] < a.count && s.ib[0] < b.count);
    let a0 = a.verts[s.ia[0]];
    let b0 = b.verts[s.ib[0]];
    if s.count == 1 {
        return (a0, b0);
    }
    assert(s.ia[1] < a.count && s.ib[1] < b.count);
    let a1 = a.verts[s.ia[1]];
    let b1 = b.verts[s.ib[1]];
    let w0 = delta(b0, a0);
    let w1 = delta(b1, a1);
    assert(ws[0] == w0@ && ws[1] == w1@);
    if s.count == 2 {
        let e = Vec2 { x: w1.x - w0.x, y: w1.y - w0.y };
        let ee = wide_dot(e, e);
        let t = -wide_dot(w0, e);
        return (mix(a0, ee - t, a1, t, a0, 0), mix(b0, ee - t, b1, t, b0, 0));
    }
    assert(s.ia[2] < a.count && s.ib[2] < b.count);
    let a2 = a.verts[s.ia[2]];
    let b2 = b.verts[s.ib[2]];
    let w2 = delta(b2, a2);
    assert(ws[2] == w2@);
    let c12 = abs_i128(wide_cross(w1, w2));
    let c20 = abs_i128(wide_cross(w2, w0));
    let c01 = abs_i128(wide_cross(w0, w1));
    (mix(a0, c12, a1, c20, a2, c01), mix(b0, c12, b1, c20, b2, c01))
}

/// The distance of two shapes, given by core and radius, and a closest point
/// on each, by the engine. The simplex starts from `cache` where that fits the
/// shapes, and the simplex that the query ended with is left in `cache`.
pub fn gjk_proxies(pa: &Proxy, pb: &Proxy, use_radius: bool, cache: &mut GjkCache) -> (r:
    GjkResponse)
    requires
        pa.wf(),
        pb.wf(),
    ensures
        r.found.describes(pa@, pb@),
        r.found@ == gjk_run(pa@, pb@, *old(cache)),
        r@ == respond(r.found, pa@, pa.radius as int, pb@, pb.radius as int, use_radius),
        r.distance == reply_distance(r.found@, pa.radius as int, pb.radius as int, use_radius),
        r.iterations == r.found.iterations,
        r.exact == r.found.exact,
        0 <= r.distance <= 0x400_0000_0000,
        *final(cache) == r.found.simplex,
{
    let c = closest(pa, pb, cache);
    *cache = c.simplex;
    let (xa, xb) = anchors(&c, pa, pb);
    if c.hit {
        return GjkResponse {
            distance: 0,
            closest_points: (xa, xa),
            iterations: c.iterations,
            exact: c.exact,
            found: c,
        };
    }
    proof {
        lemma_product_bound(c.m as int, c.m as int, 2199023255552, 2199023255552);
        assert(c.m * c.m >= 0) by (nonlinear_arith);
        assert(2199023255552int * 2199023255552int == 0x4_0000_0000_0000_0000_0000int);
        lemma_product_bound(c.d.x as int, c.d.x as int, WIDE as int, WIDE as int);
        lemma_product_bound(c.d.y as int, c.d.y as int, WIDE as int, WIDE as int);
        lemma_attained_direction(c.simplex.points(pa@, pb@), c.d@, c.m as int);
    }
    let dd = wide_dot(c.d, c.d);
    let q: i128 = (c.m * c.m) / dd;
    let root = isqrt(q as u128);
    proof {
        assert(0 <= q <= 0x4_0000_0000_0000_0000_0000) by (nonlinear_arith)
            requires
                q == (c.m * c.m) / (dd as int),
                0 <= c.m * c.m <= 0x4_0000_0000_0000_0000_0000,
                dd >= 1,
        ;
        if root > 0x400_0000_0000 {
            lemma_square_monotone(0x400_0000_0000, root as int);
        }
    }
    let dist: i64 = root as i64;
    if !use_radius {
        return GjkResponse {
            distance: dist,
            closest_points: (xa, xb),
            iterations: c.iterations,
            exact: c.exact,
            found: c,
        };
    }
    if dist > pa.radius + pb.radius {
        let n = unit_of(Vec2 { x: -c.d.x, y: -c.d.y });
        let sa = stretch_by(n, pa.radius);
        let sb = stretch_by(n, pb.radius);
        GjkResponse {
            distance: dist - pa.radius - pb.radius,
            closest_points: (
                Vec2 { x: xa.x + sa.x, y: xa.y + sa.y },
                Vec2 { x: xb.x - sb.x, y: xb.y - sb.y },
            ),
            iterations: c.iterations,
            exact: c.exact,
            found: c,
        }
    } else {
        let mid = Vec2 { x: xa.x + (xb.x - xa.x) / 2, y: xa.y + (xb.y - xa.y) / 2 };
        GjkResponse {
            distance: 0,
            closest_points: (mid, mid),
            iterations: c.iterations,
            exact: c.exact,
            found: c,
        }
    }
}

/// The distance of two placed shapes and a closest point on each, by the
/// engine. The simplex starts from `cache` where that fits the shapes, and the
/// simplex that the query ended with is left in `cache`.
pub fn gjk_solids(a: &Solid, b: &Solid, use_radius: bool, cache: &mut GjkCache) -> (r:
    GjkResponse)
    requires
        a.placed(),
        b.placed(),
    ensures
        r.found.describes(frame(a.figure()), frame(b.figure())),
        r.found@ == gjk_run(frame(a.figure()), frame(b.figure()), *old(cache)),
        r@ == respond(
            r.found,
            frame(a.figure()),
            girth(a.figure()),
            frame(b.figure()),
            girth(b.figure()),
            use_radius,
        ),
        r.iterations == r.found.iterations,
        r.exact == r.found.exact,
        0 <= r.distance <= 0x400_0000_0000,
        *final(cache) == r.found.simplex,
{
    let pa = a.proxy();
    let pb = b.proxy();
    gjk_proxies(&pa, &pb, use_radius, cache)
}

/// The direction of a part of a simplex that does not hold the origin is not
/// the zero vector.
proof fn lemma_attained_direction(ws: Seq<Point>, d: Point, m: int)
    requires
        attains(ws, d, m),
    ensures
        d.norm_sq() >= 1,
{
    if ws.len() == 1 {
        assert(d.norm_sq() == ws[0].norm_sq()) by (nonlinear_arith)
            requires
                d == ws[0].neg(),
        ;
    } else {
        let e = ws[1].minus(ws[0]);
        assert(d.norm_sq() == e.norm_sq()) by (nonlinear_arith)
            requires
                d == e.perp().neg() || d == e.perp(),
        ;
    }
}

/// The distance of two shapes and a closest point on each, once each shape is
/// placed in the world.
///
/// With `use_radius` the radius of a circle or a capsule counts as part of the
/// shape; without it only the centre of the circle and the segment of the
/// capsule do. The simplex starts from `cache` where that fits the shapes, and
/// the simplex that the query ended with is left in `cache`.
pub fn gjk(a: &Body, b: &Body, use_radius: bool, cache: &mut GjkCache) -> (r: GjkResponse)
    requires
        a.wf(),
        b.wf(),
    ensures
        r.found.describes(frame(a.figure()), frame(b.figure())),
        r.found@ == gjk_run(frame(a.figure()), frame(b.figure()), *old(cache)),
        r@ == respond(
            r.found,
            frame(a.figure()),
            girth(a.figure()),
            frame(b.figure()),
            girth(b.figure()),
            use_radius,
        ),
        r.iterations == r.found.iterations,
        r.exact == r.found.exact,
        0 <= r.distance <= 0x400_0000_0000,
        *final(cache) == r.found.simplex,
{
    let x = a.place();
    let y = b.place();
    gjk_solids(&x, &y, use_radius, cache)
}


} // verus!
