//! Convex polygons of up to eight vertices, and their construction as the
//! convex hull of a list of points.

use vstd::prelude::*;
use vstd::std_specs::convert::IntoSpec;
use crate::convex::{
    all_within, faces, hull_of, leads, lemma_faces_at, lemma_faces_from_edge,
    lemma_faces_from_lowest, lemma_leads_means,
    lemma_line_collinear, lemma_nears_keep, lemma_nears_self, lemma_nears_step, lemma_one_way_in,
    lemma_there_and_back, lemma_two_alike, lemma_walk_is_hull, nears,
};
use crate::model::corners;
use crate::scalar::REACH;
use crate::shapes::{check_limit, in_limit, place_at, place_point, ShapeError, Transformation, AABB};
use crate::vec2::{delta, distance_sq, orient, orientation, perp, Point, Vec2};

verus! {

/// The largest number of vertices of a polygon.
pub const MAX_POLYGON_VERTS: usize = 8;

/// The index that follows `i` around a polygon of `n` vertices.
pub open spec fn next_index(i: int, n: int) -> int {
    if i + 1 == n {
        0
    } else {
        i + 1
    }
}

/// A polygon with up to 8 sides
#[derive(Clone, Copy, Debug)]
pub struct Poly {
    pub count: usize,
    pub verts: [Vec2; 8],
    pub norms: [Vec2; 8],
}

/// The points of `s`, three at a time, lie on one line.
pub open spec fn collinear(s: Seq<Point>) -> bool {
    forall|i: int, j: int, k: int|
        0 <= i < s.len() && 0 <= j < s.len() && 0 <= k < s.len() ==> #[trigger] orient(
            s[i],
            s[j],
            s[k],
        ) == 0
}

/// The vertices `h` wind counter-clockwise around a strictly convex polygon:
/// every vertex lies strictly to the left of every edge it is not an end of.
pub open spec fn strictly_convex(h: Seq<Point>) -> bool {
    forall|i: int, j: int|
        0 <= i < h.len() && 0 <= j < h.len() && j != i && j != next_index(i, h.len() as int)
            ==> #[trigger] orient(h[i], h[next_index(i, h.len() as int)], h[j]) > 0
}

/// No point of `s` lies strictly to the right of an edge of `h`.
pub open spec fn encloses(h: Seq<Point>, s: Seq<Point>) -> bool {
    forall|i: int, k: int|
        0 <= i < h.len() && 0 <= k < s.len() ==> #[trigger] orient(
            h[i],
            h[next_index(i, h.len() as int)],
            s[k],
        ) >= 0
}

/// Every point of `h` is a point of `s`.
pub open spec fn drawn_from(h: Seq<Point>, s: Seq<Point>) -> bool {
    forall|i: int| 0 <= i < h.len() ==> s.contains(#[trigger] h[i])
}

/// `h` is the convex hull of the points `s`: a strictly convex polygon of at
/// least three vertices, all of them points of `s`, that encloses `s`.
pub open spec fn is_hull(h: Seq<Point>, s: Seq<Point>) -> bool {
    &&& h.len() >= 3
    &&& strictly_convex(h)
    &&& encloses(h, s)
    &&& drawn_from(h, s)
}

impl View for Poly {
    type V = Seq<Point>;

    /// The vertices in order, counter-clockwise.
    open spec fn view(&self) -> Seq<Point> {
        Seq::new(self.count as nat, |i: int| self.verts[i]@)
    }
}

impl Poly {
    /// The vertex with index `i`.
    pub open spec fn vertex(self, i: int) -> Point {
        self.verts[i]@
    }

    /// The index of the vertex that follows vertex `i`.
    pub open spec fn after(self, i: int) -> int {
        next_index(i, self.count as int)
    }

    /// The edge that leaves vertex `i`, as a vector.
    pub open spec fn edge(self, i: int) -> Point {
        self.vertex(self.after(i)).minus(self.vertex(i))
    }

    /// The outward normal of the edge that leaves vertex `i`, with the edge's
    /// length.
    pub open spec fn normal(self, i: int) -> Point {
        self.edge(i).perp()
    }

    /// Three to eight vertices, and each stored normal is the outward normal
    /// of its edge.
    pub open spec fn shaped(self) -> bool {
        &&& 3 <= self.count <= 8
        &&& forall|i: int| 0 <= i < self.count ==> (#[trigger] self.norms[i])@ == self.normal(i)
    }

    /// The polygon as placed in the world: every vertex within `WORLD`.
    pub open spec fn placed(self) -> bool {
        &&& self.shaped()
        &&& forall|i: int| 0 <= i < self.count ==> (#[trigger] self.verts[i]).in_world()
    }

    /// Every vertex lies within `REACH`, as after placing a polygon.
    pub open spec fn reach(self) -> bool {
        forall|i: int| 0 <= i < self.count ==> (#[trigger] self.verts[i])@.bounded(REACH as int)
    }

    /// The polygon as built: every vertex within `LIMIT`, and the vertices wind
    /// counter-clockwise around a strictly convex polygon.
    pub open spec fn wf(self) -> bool {
        &&& self.shaped()
        &&& forall|i: int| 0 <= i < self.count ==> in_limit(#[trigger] self.verts[i])
        &&& strictly_convex(self@)
    }

    /// The number of sides
    pub fn count(self) -> (n: usize)
        ensures
            n == self.count,
    {
        self.count
    }

    /// Gets the point of the polygon at the index
    pub fn get_vert(self, index: usize) -> (v: Vec2)
        requires
            index < self.count <= 8,
        ensures
            v == self.verts[index as int],
            v@ == self@[index as int],
    {
        self.verts[index]
    }

    /// The index that follows `i` around the polygon.
    pub fn next(&self, i: usize) -> (j: usize)
        requires
            i < self.count <= 8,
        ensures
            j == self.after(i as int),
            j < self.count,
    {
        if i + 1 == self.count {
            0
        } else {
            i + 1
        }
    }

    /// The polygon in the world under an optional transformation: `w` has the
    /// vertices of `self`, each taken to its place.
    pub open spec fn lands_at(self, x: Option<Transformation>, w: Poly) -> bool {
        &&& w.count == self.count
        &&& forall|i: int|
            0 <= i < self.count ==> (#[trigger] w.verts[i])@ == place_point(x, self.verts[i]@)
    }

    /// Places the polygon in the world: every vertex is taken to its place, and
    /// the normals are those of the edges between the placed vertices.
    pub fn place(&self, x: &Option<Transformation>) -> (w: Poly)
        requires
            self.wf(),
            x matches Some(t) ==> t.wf(),
        ensures
            self.lands_at(*x, w),
            w.placed(),
            w.reach(),
    {
        let mut verts: [Vec2; 8] = self.verts;
        let n = self.count;
        let mut i: usize = 0;
        while i < n
            invariant
                0 <= i <= n,
                n == self.count,
                self.wf(),
                x matches Some(t) ==> t.wf(),
                forall|k: int| 0 <= k < i ==> (#[trigger] verts[k])@ == place_point(*x, self.verts[k]@),
                forall|k: int| 0 <= k < i ==> (#[trigger] verts[k]).in_world(),
                forall|k: int| 0 <= k < i ==> (#[trigger] verts[k])@.bounded(REACH as int),
            decreases n - i,
        {
            let w = place_at(x, self.verts[i]);
            verts[i] = w;
            i = i + 1;
        }
        with_normals(n, verts)
    }
}

/// The polygon of the given vertices, with the normals of its edges.
pub fn with_normals(count: usize, verts: [Vec2; 8]) -> (p: Poly)
    requires
        3 <= count <= 8,
        forall|i: int| 0 <= i < count ==> (#[trigger] verts[i]).in_world(),
    ensures
        p.count == count,
        p.verts == verts,
        p.placed(),
{
    let mut p = Poly { count, verts, norms: verts };
    let mut i: usize = 0;
    while i < count
        invariant
            0 <= i <= count,
            3 <= count <= 8,
            p.count == count,
            p.verts == verts,
            forall|k: int| 0 <= k < count ==> (#[trigger] verts[k]).in_world(),
            forall|k: int| 0 <= k < i ==> (#[trigger] p.norms[k])@ == p.normal(k),
        decreases count - i,
    {
        let j = p.next(i);
        let n = perp(delta(p.verts[j], p.verts[i]));
        p.norms[i] = n;
        i = i + 1;
    }
    p
}

impl AABB {
    /// The four corners of the box, counter-clockwise from the minimum corner.
    pub open spec fn corners(self) -> Seq<Point> {
        corners(self.min@, self.max@)
    }

    /// The box as a polygon of its four corners.
    pub fn to_poly(&self) -> (p: Poly)
        requires
            self.wf(),
        ensures
            p@ == self.corners(),
            p.count == 4,
            p.placed(),
    {
        let lo = self.min;
        let hi = self.max;
        let a = Vec2 { x: lo.x, y: lo.y };
        let b = Vec2 { x: hi.x, y: lo.y };
        let c = Vec2 { x: hi.x, y: hi.y };
        let d = Vec2 { x: lo.x, y: hi.y };
        let verts: [Vec2; 8] = [a, b, c, d, a, a, a, a];
        let p = with_normals(4, verts);
        assert(p@ =~= self.corners());
        p
    }
}

/// `a` comes before `b`, or is `b`, when points are ordered by `x` and then
/// by `y`.
pub open spec fn lex_le(a: Point, b: Point) -> bool {
    a.x < b.x || (a.x == b.x && a.y <= b.y)
}

/// The points that stand for a list of vectors.
pub open spec fn points_of(s: Seq<Vec2>) -> Seq<Point> {
    Seq::new(s.len(), |i: int| s[i]@)
}

/// What building a polygon from the points `s` gives.
///
/// A point beyond `LIMIT` is refused as out of range, and nothing else is.
/// Points within `LIMIT` that lie on one line, as fewer than three different
/// points do, are refused as degenerate, and no others are. All other points
/// give the polygon of their convex hull, wound counter-clockwise from the
/// first of its vertices by `x`, then `y`.
pub open spec fn hull_outcome(s: Seq<Vec2>, r: Result<Poly, ShapeError>) -> bool {
    &&& r == Err::<Poly, ShapeError>(ShapeError::OutOfRange) <==> exists|i: int|
        0 <= i < s.len() && !in_limit(#[trigger] s[i])
    &&& r == Err::<Poly, ShapeError>(ShapeError::Degenerate) <==> (forall|i: int|
        0 <= i < s.len() ==> in_limit(#[trigger] s[i])) && collinear(points_of(s))
    &&& r matches Ok(p) ==> p.wf() && hull_of(p@, points_of(s))
    &&& r matches Err(e) ==> e == ShapeError::OutOfRange || e == ShapeError::Degenerate
}

/// The first `n` entries of `pts`.
pub open spec fn leading(pts: [Vec2; 8], n: int) -> Seq<Vec2> {
    Seq::new(n as nat, |i: int| pts[i])
}

/// The index of the first of the first `n` points of `pts` by `x`, then `y`.
fn lowest(pts: &[Vec2; 8], n: usize) -> (best: usize)
    requires
        0 < n <= 8,
    ensures
        best < n,
        forall|k: int| 0 <= k < n ==> lex_le(pts[best as int]@, #[trigger] pts[k]@),
{
    let mut best: usize = 0;
    let mut k: usize = 1;
    while k < n
        invariant
            1 <= k <= n <= 8,
            best < k,
            forall|j: int| 0 <= j < k ==> lex_le(pts[best as int]@, #[trigger] pts[j]@),
        decreases n - k,
    {
        if pts[k].x < pts[best].x || (pts[k].x == pts[best].x && pts[k].y < pts[best].y) {
            best = k;
        }
        k = k + 1;
    }
    best
}

/// From the point `cur`, the index of the point that the boundary of the hull
/// turns to next: no other point lies to its right, and of the points in its
/// direction it is the farthest. Where every point is `cur`, the index is
/// `cur`. Where the other points all lie on the side of `cur` that `hv`
/// points to, the boundary of the hull leads from `cur` to the point found.
fn turn_to(pts: &[Vec2; 8], n: usize, cur: usize, Ghost(hv): Ghost<Point>) -> (best: usize)
    requires
        cur < n <= 8,
        forall|k: int| 0 <= k < n ==> (#[trigger] pts[k]).in_world(),
    ensures
        best < n,
        faces(pts[cur as int]@, hv, points_of(leading(*pts, n as int))) && (exists|k: int|
            0 <= k < n && (#[trigger] pts[k])@ != pts[cur as int]@) ==> leads(
            pts[cur as int]@,
            pts[best as int]@,
            points_of(leading(*pts, n as int)),
        ),
{
    let ghost s = points_of(leading(*pts, n as int));
    let ghost c = pts[cur as int]@;
    let ghost fc = faces(c, hv, s);
    let mut best: usize = cur;
    let mut j: usize = 0;
    while j < n
        invariant
            0 <= j <= n <= 8,
            cur < n,
            best < n,
            s == points_of(leading(*pts, n as int)),
            c == pts[cur as int]@,
            fc == faces(c, hv, s),
            forall|k: int| 0 <= k < n ==> (#[trigger] pts[k]).in_world(),
            pts[best as int]@ == c ==> forall|k: int| 0 <= k < j ==> (#[trigger] pts[k])@ == c,
            fc && pts[best as int]@ != c ==> forall|k: int|
                0 <= k < j && (#[trigger] pts[k])@ != c ==> nears(c, pts[best as int]@, pts[k]@),
        decreases n - j,
    {
        let ghost q = pts[j as int]@;
        let ghost b = pts[best as int]@;
        proof {
            assert(s[j as int] == q);
            assert(s[best as int] == b);
            if fc && q != c {
                lemma_faces_at(c, hv, s, j as int);
            }
            if fc && b != c {
                lemma_faces_at(c, hv, s, best as int);
            }
        }
        if pts[j] != pts[cur] {
            if pts[best] == pts[cur] {
                proof {
                    lemma_nears_self(c, q);
                }
                best = j;
            } else {
                let o = orientation(pts[cur], pts[best], pts[j]);
                if o < 0 || (o == 0 && distance_sq(pts[j], pts[cur]) > distance_sq(
                    pts[best],
                    pts[cur],
                )) {
                    proof {
                        lemma_nears_self(c, q);
                        if fc {
                            assert forall|k: int|
                                0 <= k < j && (#[trigger] pts[k])@ != c implies nears(
                                c,
                                q,
                                pts[k]@,
                            ) by {
                                assert(s[k] == pts[k]@);
                                lemma_faces_at(c, hv, s, k);
                                lemma_nears_step(c, b, q, pts[k]@, hv);
                            }
                        }
                    }
                    best = j;
                } else {
                    proof {
                        if fc {
                            lemma_nears_keep(c, b, q, hv);
                        }
                    }
                }
            }
        }
        j = j + 1;
    }
    proof {
        if fc && (exists|k: int| 0 <= k < n && (#[trigger] pts[k])@ != c) {
            assert forall|k: int| 0 <= k < s.len() && s[k] != c implies #[trigger] nears(
                c,
                pts[best as int]@,
                s[k],
            ) by {
                assert(s[k] == pts[k]@);
            }
            lemma_leads_means(c, pts[best as int]@, s);
        }
    }
    best
}

/// Fewer than three points lie on one line.
pub proof fn lemma_few_points_collinear(s: Seq<Point>)
    requires
        s.len() < 3,
    ensures
        collinear(s),
{
    assert forall|i: int, j: int, k: int|
        0 <= i < s.len() && 0 <= j < s.len() && 0 <= k < s.len() implies #[trigger] orient(
        s[i],
        s[j],
        s[k],
    ) == 0 by {
        lemma_orient_twice(s[i], s[j], s[k]);
    }
}

/// Three points of which two are the same span no area.
pub proof fn lemma_orient_twice(a: Point, b: Point, c: Point)
    requires
        a == b || a == c || b == c,
    ensures
        orient(a, b, c) == 0,
{
    assert(orient(a, b, c) == 0) by (nonlinear_arith)
        requires
            orient(a, b, c) == (b.x - a.x) * (c.y - a.y) - (b.y - a.y) * (c.x - a.x),
            (a.x == b.x && a.y == b.y) || (a.x == c.x && a.y == c.y) || (b.x == c.x && b.y == c.y),
    ;
}

/// `v` is one of the first `n` points of `pts`.
spec fn among(v: Vec2, pts: [Vec2; 8], n: int) -> bool {
    exists|m: int| 0 <= m < n && v == #[trigger] pts[m]
}

/// The boundary of the hull of `q` leads from vertex `i` of the walk to the
/// next.
spec fn step_leads(verts: [Vec2; 8], i: int, q: Seq<Point>) -> bool {
    leads(verts[i]@, verts[i + 1]@, q)
}

/// The vertices `i` and `j` of the walk are different points.
spec fn far_apart(verts: [Vec2; 8], i: int, j: int) -> bool {
    verts[i]@ != verts[j]@
}

/// What holds of the first `count` vertices of a walk round the points `q`:
/// each is one of the points, they are different points, and the boundary of
/// the hull leads from each to the next.
spec fn walked(verts: [Vec2; 8], pts: [Vec2; 8], n: int, count: int, q: Seq<Point>) -> bool {
    &&& forall|j: int| 0 <= j < 8 ==> #[trigger] among(verts[j], pts, n)
    &&& forall|i: int, j: int| 0 <= i < j < count ==> #[trigger] far_apart(verts, i, j)
    &&& forall|i: int| 0 <= i && i + 1 < count ==> #[trigger] step_leads(verts, i, q)
}

/// A walk goes on by the point that the boundary leads to from its last
/// vertex, where that is not the first vertex: the point is none of the
/// vertices so far.
proof fn lemma_walk_on(
    before: [Vec2; 8],
    verts: [Vec2; 8],
    pts: [Vec2; 8],
    n: int,
    count: int,
    cur: int,
    next: int,
)
    requires
        1 <= count <= 8,
        0 <= cur < n <= 8,
        0 <= next < n,
        walked(before, pts, n, count - 1, points_of(leading(pts, n))),
        forall|i: int| 0 <= i < 8 && i != count - 1 ==> verts[i] == before[i],
        verts[count - 1] == pts[cur],
        count >= 2 ==> leads(before[count - 2]@, pts[cur]@, points_of(leading(pts, n))),
        forall|i: int| 0 <= i < count - 1 ==> pts[cur]@ != (#[trigger] before[i])@,
        leads(pts[cur]@, pts[next]@, points_of(leading(pts, n))),
        pts[next]@ != verts[0]@,
    ensures
        walked(verts, pts, n, count, points_of(leading(pts, n))),
        forall|i: int| 0 <= i < count ==> pts[next]@ != (#[trigger] verts[i])@,
        count < 8,
{
    let q = points_of(leading(pts, n));
    let w = pts[next]@;
    let c = pts[cur]@;
    lemma_walk_step(before, verts, pts, n, count, cur);
    lemma_leads_means(c, w, q);
    assert forall|i: int| 0 <= i < count implies w != (#[trigger] verts[i])@ by {
        if i != 0 && i != count - 1 && w == verts[i]@ {
            assert(step_leads(verts, i - 1, q));
            assert(among(verts[i - 1], pts, n));
            let m = choose|m: int| 0 <= m < n && verts[i - 1] == pts[m];
            assert(q[m] == verts[i - 1]@);
            assert(q[cur] == c);
            lemma_one_way_in(verts[i - 1]@, c, w, q);
            assert(far_apart(verts, i - 1, count - 1));
        }
    }
    if count == 8 {
        let f = Seq::new(
            9,
            |k: int|
                if k < 8 {
                    choose|m: int| 0 <= m < n && verts[k] == #[trigger] pts[m]
                } else {
                    next
                },
        );
        assert forall|k: int| 0 <= k < f.len() implies 0 <= #[trigger] f[k] < n by {
            if k < 8 {
                assert(among(verts[k], pts, n));
            }
        }
        lemma_two_alike(f, n);
        let (a, b) = choose|a: int, b: int| 0 <= a < b < f.len() && f[a] == f[b];
        assert(among(verts[a], pts, n));
        assert(verts[a] == pts[f[a]]);
        if b < 8 {
            assert(among(verts[b], pts, n));
            assert(verts[b] == pts[f[b]]);
            assert(far_apart(verts, a, b));
        } else {
            assert(w == verts[a]@);
        }
    }
}

/// A walk that is back at its first vertex after at least three vertices has
/// gone round the convex hull.
proof fn lemma_walk_closed(verts: [Vec2; 8], pts: [Vec2; 8], n: int, count: int)
    requires
        3 <= count <= 8,
        0 <= n <= 8,
        walked(verts, pts, n, count, points_of(leading(pts, n))),
        leads(verts[count - 1]@, verts[0]@, points_of(leading(pts, n))),
        forall|j: int| 0 <= j < n ==> lex_le(verts[0]@, (#[trigger] pts[j])@),
    ensures
        hull_of(Seq::new(count as nat, |i: int| verts[i]@), points_of(leading(pts, n))),
        !collinear(points_of(leading(pts, n))),
{
    let q = points_of(leading(pts, n));
    let h = Seq::new(count as nat, |i: int| verts[i]@);
    assert forall|i: int| 0 <= i < h.len() implies q.contains(#[trigger] h[i]) by {
        assert(among(verts[i], pts, n));
        let m = choose|m: int| 0 <= m < n && verts[i] == pts[m];
        assert(q[m] == h[i]);
    }
    assert forall|i: int| 0 <= i < h.len() implies #[trigger] leads(
        h[i],
        h[next_index(i, h.len() as int)],
        q,
    ) by {
        if i + 1 < count {
            assert(step_leads(verts, i, q));
        }
    }
    assert forall|i: int, j: int| 0 <= i < j < h.len() implies h[i] != h[j] by {
        assert(far_apart(verts, i, j));
    }
    lemma_walk_is_hull(h, q);
    assert forall|i: int| 0 <= i < h.len() implies lex_le(h[0], #[trigger] h[i]) by {
        assert(among(verts[i], pts, n));
        let m = choose|m: int| 0 <= m < n && verts[i] == pts[m];
        assert(lex_le(verts[0]@, pts[m]@));
    }
    if collinear(q) {
        assert(q.contains(h[0]) && q.contains(h[1]) && q.contains(h[2]));
        let a = choose|k: int| 0 <= k < q.len() && q[k] == h[0];
        let b = choose|k: int| 0 <= k < q.len() && q[k] == h[1];
        let c = choose|k: int| 0 <= k < q.len() && q[k] == h[2];
        assert(orient(q[a], q[b], q[c]) == 0);
        assert(orient(h[0], h[next_index(0, h.len() as int)], h[2]) > 0);
    }
}

/// The convex hull of the first `n` points of `pts`.
///
/// The walk begins at the first point by `x`, then `y`, and turns from each
/// point to the next point of the boundary until it is back where it began.
pub fn hull(pts: &[Vec2; 8], n: usize) -> (r: Result<Poly, ShapeError>)
    requires
        n <= 8,
    ensures
        hull_outcome(leading(*pts, n as int), r),
{
    let ghost s = leading(*pts, n as int);
    let ghost q = points_of(s);
    let mut k: usize = 0;
    while k < n
        invariant
            0 <= k <= n <= 8,
            s == leading(*pts, n as int),
            forall|j: int| 0 <= j < k ==> in_limit(#[trigger] pts[j]),
        decreases n - k,
    {
        if !check_limit(pts[k]) {
            assert(!in_limit(s[k as int]));
            return Err(ShapeError::OutOfRange);
        }
        k = k + 1;
    }
    assert(forall|j: int| 0 <= j < s.len() ==> in_limit(#[trigger] s[j]));
    if n < 3 {
        proof {
            lemma_few_points_collinear(q);
        }
        return Err(ShapeError::Degenerate);
    }
    let start = lowest(pts, n);
    let ghost low = pts[start as int]@;
    let ghost spread = exists|j: int| 0 <= j < n && (#[trigger] pts[j])@ != low;
    proof {
        assert(all_within(q, 65536)) by {
            assert forall|j: int| 0 <= j < q.len() implies (#[trigger] q[j]).bounded(65536) by {
                assert(q[j] == pts[j]@);
                assert(in_limit(pts[j]));
            }
        }
        assert forall|j: int| 0 <= j < q.len() implies lex_le(low, #[trigger] q[j]) by {
            assert(q[j] == pts[j]@);
        }
    }
    let mut verts: [Vec2; 8] = [pts[start]; 8];
    let mut count: usize = 0;
    let mut cur: usize = start;
    proof {
        assert forall|j: int| 0 <= j < 8 implies #[trigger] among(verts[j], *pts, n as int) by {
            assert(verts[j] == pts[start as int]);
        }
    }
    while count < 8
        invariant_except_break
            count < 8,
            count >= 1 ==> spread,
            spread && count >= 1 ==> leads(verts[count - 1]@, pts[cur as int]@, q),
            forall|i: int| 0 <= i < count ==> pts[cur as int]@ != (#[trigger] verts[i])@,
        invariant
            0 <= count <= 8,
            3 <= n <= 8,
            start < n,
            cur < n,
            q == points_of(leading(*pts, n as int)),
            low == pts[start as int]@,
            spread == (exists|j: int| 0 <= j < n && (#[trigger] pts[j])@ != low),
            all_within(q, 65536),
            forall|j: int| 0 <= j < n ==> in_limit(#[trigger] pts[j]),
            forall|j: int| 0 <= j < q.len() ==> lex_le(low, #[trigger] q[j]),
            verts[0] == pts[start as int],
            count == 0 ==> cur == start,
            walked(verts, *pts, n as int, count as int, q),
        ensures
            1 <= count <= 8,
            spread ==> leads(verts[count - 1]@, verts[0]@, q),
            !spread ==> count == 1,
        decreases 8 - count,
    {
        let ghost before = verts;
        verts[count] = pts[cur];
        count = count + 1;
        let ghost c = pts[cur as int]@;
        let ghost hv = if count == 1 {
            Point { x: 131073, y: 1 }
        } else {
            let pc = before[count - 2]@;
            Point {
                x: -0x100_0000_0000 * (c.y - pc.y) - (c.x - pc.x),
                y: 0x100_0000_0000 * (c.x - pc.x) - (c.y - pc.y),
            }
        };
        proof {
            assert(q[cur as int] == c);
            assert(c.bounded(65536));
            if count == 1 {
                lemma_faces_from_lowest(c, q);
            } else {
                assert(among(before[count - 2], *pts, n as int));
                let m = choose|m: int| 0 <= m < n && before[count - 2] == pts[m];
                assert(q[m] == before[count - 2]@);
                lemma_faces_from_edge(before[count - 2]@, c, q);
            }
            if spread && c != low {
                assert(pts[start as int]@ != c);
            }
        }
        let next = turn_to(pts, n, cur, Ghost(hv));
        proof {
            lemma_leads_means(c, pts[next as int]@, q);
        }
        if pts[next] == pts[cur] || pts[next] == pts[start] {
            proof {
                assert(q[next as int] == pts[next as int]@);
                lemma_walk_step(before, verts, *pts, n as int, count as int, cur as int);
            }
            break;
        }
        proof {
            if count == 1 {
                assert(pts[next as int]@ != low);
            }
            lemma_walk_on(before, verts, *pts, n as int, count as int, cur as int, next as int);
        }
        cur = next;
    }
    if count < 3 {
        proof {
            if spread {
                if count == 2 {
                    assert(step_leads(verts, 0, q));
                    lemma_there_and_back(verts[0]@, verts[1]@, q);
                } else {
                    lemma_leads_means(verts[0]@, verts[0]@, q);
                }
            } else {
                assert forall|j: int| 0 <= j < q.len() implies (Point { x: 1, y: 0 }).cross(
                    (#[trigger] q[j]).minus(low),
                ) == 0 by {
                    assert(q[j] == pts[j]@);
                    assert(pts[j]@ == low);
                }
                lemma_line_collinear(low, Point { x: 1, y: 0 }, q);
            }
        }
        return Err(ShapeError::Degenerate);
    }
    proof {
        assert forall|i: int| 0 <= i < count implies in_limit(#[trigger] verts[i]) by {
            assert(among(verts[i], *pts, n as int));
        }
    }
    let p = with_normals(count, verts);
    proof {
        assert(p@ =~= Seq::new(count as nat, |i: int| verts[i]@));
        assert forall|j: int| 0 <= j < n implies lex_le(verts[0]@, (#[trigger] pts[j])@) by {
            assert(q[j] == pts[j]@);
        }
        lemma_walk_closed(verts, *pts, n as int, count as int);
    }
    Ok(p)
}

/// A walk goes on by the point it stands at: with that point as its next
/// vertex it is a walk still.
proof fn lemma_walk_step(
    before: [Vec2; 8],
    verts: [Vec2; 8],
    pts: [Vec2; 8],
    n: int,
    count: int,
    cur: int,
)
    requires
        1 <= count <= 8,
        0 <= cur < n <= 8,
        walked(before, pts, n, count - 1, points_of(leading(pts, n))),
        forall|i: int| 0 <= i < 8 && i != count - 1 ==> verts[i] == before[i],
        verts[count - 1] == pts[cur],
        count >= 2 ==> leads(before[count - 2]@, pts[cur]@, points_of(leading(pts, n))),
        forall|i: int| 0 <= i < count - 1 ==> pts[cur]@ != (#[trigger] before[i])@,
    ensures
        walked(verts, pts, n, count, points_of(leading(pts, n))),
{
    let q = points_of(leading(pts, n));
    assert forall|j: int| 0 <= j < 8 implies #[trigger] among(verts[j], pts, n) by {
        if j != count - 1 {
            assert(among(before[j], pts, n));
        }
    }
    assert forall|i: int, j: int| 0 <= i < j < count implies #[trigger] far_apart(
        verts,
        i,
        j,
    ) by {
        if j < count - 1 {
            assert(far_apart(before, i, j));
        }
    }
    assert forall|i: int| 0 <= i && i + 1 < count implies #[trigger] step_leads(verts, i, q) by {
        if i + 2 < count {
            assert(step_leads(before, i, q));
        }
    }
}

/// The vectors that the first eight entries of `s` convert to.
pub open spec fn converted<V: Into<Vec2>>(s: Seq<V>) -> Seq<Vec2> {
    Seq::new(
        if s.len() < 8 {
            s.len()
        } else {
            8
        },
        |i: int| s[i].into_spec(),
    )
}

impl Poly {
    /// Creates a polygon from a slice of vectors: the convex hull of the first
    /// eight of them, wound counter-clockwise from the first vertex by `x`,
    /// then `y`. Vectors beyond `LIMIT` are refused, and so are vectors that
    /// all lie on one line.
    pub fn from_slice<V: Copy + Into<Vec2>>(verts: &[V]) -> (r: Result<Poly, ShapeError>)
        ensures
            V::obeys_into_spec() ==> hull_outcome(converted(verts@), r),
            r matches Ok(p) ==> p.wf(),
            r matches Err(e) ==> e == ShapeError::OutOfRange || e == ShapeError::Degenerate,
    {
        let zero = Vec2 { x: 0, y: 0 };
        let mut pts: [Vec2; 8] = [zero; 8];
        let n: usize = if verts.len() < 8 {
            verts.len()
        } else {
            8
        };
        let mut i: usize = 0;
        while i < n
            invariant
                0 <= i <= n <= 8,
                n <= verts@.len(),
                V::obeys_into_spec() ==> forall|k: int|
                    0 <= k < i ==> (#[trigger] pts[k]) == verts@[k].into_spec(),
            decreases n - i,
        {
            let v: Vec2 = verts[i].into();
            pts[i] = v;
            i = i + 1;
        }
        let r = hull(&pts, n);
        proof {
            if V::obeys_into_spec() {
                assert(leading(pts, n as int) =~= converted(verts@));
            }
        }
        r
    }

    /// Creates a polygon from the first `count` vectors of an array, as
    /// `from_slice` does from a slice.
    pub fn from_array<V: Copy + Into<Vec2>>(count: usize, verts: [V; 8]) -> (r: Result<
        Poly,
        ShapeError,
    >)
        requires
            count <= 8,
        ensures
            V::obeys_into_spec() ==> hull_outcome(converted(verts@.take(count as int)), r),
            r matches Ok(p) ==> p.wf(),
            r matches Err(e) ==> e == ShapeError::OutOfRange || e == ShapeError::Degenerate,
    {
        let zero = Vec2 { x: 0, y: 0 };
        let mut pts: [Vec2; 8] = [zero; 8];
        let mut i: usize = 0;
        while i < count
            invariant
                0 <= i <= count <= 8,
                V::obeys_into_spec() ==> forall|k: int|
                    0 <= k < i ==> (#[trigger] pts[k]) == verts@[k].into_spec(),
            decreases count - i,
        {
            let v: Vec2 = verts[i].into();
            pts[i] = v;
            i = i + 1;
        }
        let r = hull(&pts, count);
        proof {
            if V::obeys_into_spec() {
                assert(leading(pts, count as int) =~= converted(verts@.take(count as int)));
            }
        }
        r
    }
}


} // verus!
