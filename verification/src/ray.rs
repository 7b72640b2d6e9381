//! Rays, and where a ray first meets a shape.

use vstd::prelude::*;
use vstd::std_specs::convert::IntoSpec;
use crate::collide::{point_near_segment, spans_area, Body, Solid};
use crate::model::{corners, edge_normal, has_area, near_segment, Figure};
use crate::poly::{with_normals, Poly};
use crate::scalar::{
    div_toward_zero, floor_sqrt, isqrt, lemma_product_bound, lemma_square_monotone,
    lemma_trunc_div_bound, within, LIMIT, UNIT,
};
use crate::shapes::{check_limit, in_limit, Capsule, Circle, ShapeError, AABB};
use crate::vec2::{
    delta, dot, norm_sq, perp, stretch, stretch_by, unit, unit_of, Point, Vec2, AREA,
};

verus! {

/// A Ray struct for casting a ray: it leaves `p` in the direction `d`, a
/// vector of length `UNIT`, and ends after the distance `t`.
#[derive(Clone, Copy, Debug)]
pub struct Ray {
    pub p: Vec2,
    pub d: Vec2,
    pub t: i64,
}

/// The result of the ray casting operations: the distance `t` at which the
/// ray meets the shape, and the normal `n` of the surface there, of length
/// `UNIT`.
#[derive(Clone, Copy, Debug)]
pub struct RayCast {
    pub t: i64,
    pub n: Vec2,
}

/// Where a ray meets a shape: the model of `RayCast`.
pub struct Hit {
    pub t: int,
    pub n: Point,
}

impl View for RayCast {
    type V = Hit;

    open spec fn view(&self) -> Hit {
        Hit { t: self.t as int, n: self.n@ }
    }
}

/// The model of a result of casting a ray.
pub open spec fn seen(r: Option<RayCast>) -> Option<Hit> {
    match r {
        Some(c) => Some(c@),
        None => None,
    }
}

impl Ray {
    /// The origin lies within `LIMIT`, no coordinate of the direction exceeds
    /// `UNIT`, and the length lies in `[0, 2 * LIMIT]`.
    pub open spec fn wf(self) -> bool {
        in_limit(self.p) && self.d@.bounded(UNIT as int) && 0 <= self.t <= 2 * LIMIT
    }

    /// What `new` returns for an origin and a vector.
    pub open spec fn checked(position: Vec2, ray: Vec2) -> Result<Ray, ShapeError> {
        if !in_limit(position) || !in_limit(ray) {
            Err(ShapeError::OutOfRange)
        } else {
            let n = unit(ray@);
            Ok(
                Ray {
                    p: position,
                    d: Vec2 { x: n.x as i64, y: n.y as i64 },
                    t: floor_sqrt(ray@.norm_sq()) as i64,
                },
            )
        }
    }

    /// Creates a Ray with a position and a ray (a vector containing the
    /// direction and magnitude). The length of the ray is rounded down to a
    /// whole number; a vector of no length gives a ray of no length that
    /// points along `y`. An origin or a vector beyond `LIMIT` is refused.
    pub fn new<V: Into<Vec2>>(position: V, ray: V) -> (r: Result<Ray, ShapeError>)
        ensures
            V::obeys_into_spec() ==> r == Self::checked(position.into_spec(), ray.into_spec()),
            r matches Ok(x) ==> x.wf(),
    {
        let p: Vec2 = position.into();
        let v: Vec2 = ray.into();
        if !check_limit(p) || !check_limit(v) {
            return Err(ShapeError::OutOfRange);
        }
        let q = norm_sq(v);
        let t = isqrt(q as u128);
        proof {
            lemma_product_bound(v.x as int, v.x as int, LIMIT as int, LIMIT as int);
            lemma_product_bound(v.y as int, v.y as int, LIMIT as int, LIMIT as int);
            if t > 2 * LIMIT {
                lemma_square_monotone(2 * LIMIT, t as int);
            }
        }
        Ok(Ray { p, d: unit_of(v), t: t as i64 })
    }
}

impl RayCast {
    /// The distance is not negative and the normal has no coordinate beyond
    /// `UNIT`.
    pub open spec fn wf(self) -> bool {
        0 <= self.t <= 2 * LIMIT && self.n@.bounded(UNIT as int)
    }

    /// The distance along the ray at which it meets the shape.
    pub fn time_of_impact(self) -> (t: i64)
        ensures
            t == self.t,
    {
        self.t
    }

    /// The point at which the ray meets the shape.
    pub fn position_of_impact(self, ray: Ray) -> (p: Vec2)
        requires
            self.wf(),
            ray.wf(),
        ensures
            p@ == ray.p@.plus(stretch(ray.d@, self.t as int)),
    {
        let s = stretch_by(ray.d, self.t);
        Vec2 { x: ray.p.x + s.x, y: ray.p.y + s.y }
    }

    /// The normal of the surface at impact (unit length)
    pub fn normal(self) -> (n: Vec2)
        ensures
            n == self.n,
    {
        self.n
    }
}

/// The distance, in steps of `1 / UNIT`, at which the ray from `p` along `d`
/// enters the disc of radius `r` around `c`: the smaller root of the quadratic
/// equation of the intersection, where that root is not negative. A ray that
/// starts inside the disc, or points away from it, or passes it, has none.
pub open spec fn disc_root(p: Point, d: Point, c: Point, r: int) -> Option<int> {
    let m = p.minus(c);
    let b = m.dot(d);
    let k = m.norm_sq() - r * r;
    let disc = b * b - k * UNIT * UNIT;
    if disc < 0 {
        None
    } else {
        let root = -b - floor_sqrt(disc);
        if root < 0 {
            None
        } else {
            Some(root)
        }
    }
}

/// The vector from the centre `c` of a disc to the point that the ray from
/// `p` along `d` reaches after `root` steps of `1 / UNIT`, in steps of
/// `1 / UNIT`.
pub open spec fn spoke(p: Point, d: Point, c: Point, root: int) -> Point {
    let m = p.minus(c);
    Point { x: m.x * UNIT, y: m.y * UNIT }.plus(stretch(d, root))
}

/// Where the ray from `p` along `d` enters the disc of radius `r` around `c`:
/// the distance, rounded down, and the unit vector from the centre to the
/// point of entry.
pub open spec fn disc_impact(p: Point, d: Point, c: Point, r: int) -> Option<Hit> {
    match disc_root(p, d, c, r) {
        Some(root) => Some(Hit { t: root / (UNIT as int), n: unit(spoke(p, d, c, root)) }),
        None => None,
    }
}

/// The part of a ray that lies on the inner side of the edges of a polygon
/// seen so far. It begins at `ln / ld`, where the ray crosses edge `index`
/// (no edge while `index` is negative), and, once `capped`, ends at `hn / hd`.
/// It is `dead` once it is known to be empty.
pub struct Clip {
    pub ln: int,
    pub ld: int,
    pub hn: int,
    pub hd: int,
    pub index: int,
    pub capped: bool,
    pub dead: bool,
}

/// The whole ray.
pub open spec fn clip_start() -> Clip {
    Clip { ln: 0, ld: 1, hn: 0, hd: 1, index: -1, capped: false, dead: false }
}

/// `s`, dead if it ends before it begins.
pub open spec fn clip_close(s: Clip) -> Clip {
    if s.capped && s.hn * s.ld < s.ln * s.hd {
        Clip { ln: s.ln, ld: s.ld, hn: s.hn, hd: s.hd, index: s.index, capped: s.capped, dead: true }
    } else {
        s
    }
}

/// `s` cut by edge `i`, which the ray crosses at `num / den`: inward where
/// `den` is negative, outward where it is positive. A ray along the edge
/// (`den` is zero) on its outer side (`num` is negative) is left with nothing.
pub open spec fn clip_step(s: Clip, num: int, den: int, i: int) -> Clip {
    if s.dead {
        s
    } else if den == 0 {
        if num < 0 {
            Clip {
                ln: s.ln,
                ld: s.ld,
                hn: s.hn,
                hd: s.hd,
                index: s.index,
                capped: s.capped,
                dead: true,
            }
        } else {
            s
        }
    } else if den < 0 {
        if (-num) * s.ld > s.ln * (-den) {
            clip_close(
                Clip {
                    ln: -num,
                    ld: -den,
                    hn: s.hn,
                    hd: s.hd,
                    index: i,
                    capped: s.capped,
                    dead: false,
                },
            )
        } else {
            s
        }
    } else {
        if !s.capped || num * s.hd < s.hn * den {
            clip_close(
                Clip {
                    ln: s.ln,
                    ld: s.ld,
                    hn: num,
                    hd: den,
                    index: s.index,
                    capped: true,
                    dead: false,
                },
            )
        } else {
            s
        }
    }
}

/// The ray from `p` along `d`, cut by the first `k` edges of the polygon `v`.
pub open spec fn hull_clip(p: Point, d: Point, v: Seq<Point>, k: int) -> Clip
    decreases k,
{
    if k <= 0 {
        clip_start()
    } else {
        let n = edge_normal(v, k - 1);
        clip_step(hull_clip(p, d, v, k - 1), n.dot(v[k - 1].minus(p)), n.dot(d), k - 1)
    }
}

/// Where the ray from `p` along `d` enters the polygon `v`: the ray is cut by
/// the half-plane of each edge in turn; if something is left and the ray
/// crosses an edge inward, it enters at the last such crossing, and the normal
/// is that of the edge crossed. A ray that starts inside the polygon enters
/// nowhere, and no ray enters a polygon without an interior.
pub open spec fn hull_impact(p: Point, d: Point, v: Seq<Point>) -> Option<Hit> {
    let s = hull_clip(p, d, v, v.len() as int);
    if s.dead || s.index < 0 || !has_area(v) {
        None
    } else {
        Some(Hit { t: (UNIT * s.ln) / s.ld, n: unit(edge_normal(v, s.index)) })
    }
}

/// The earlier of two impacts; of two at the same distance, the first.
pub open spec fn earlier(x: Option<Hit>, y: Option<Hit>) -> Option<Hit> {
    match (x, y) {
        (Some(a), Some(b)) => if b.t < a.t {
            y
        } else {
            x
        },
        (Some(_), None) => x,
        (None, _) => y,
    }
}

/// The vector from the segment of a pill to its flat side on the right of the
/// way from `a` to `b`.
pub open spec fn pill_offset(a: Point, b: Point, r: int) -> Point {
    stretch(unit(b.minus(a).perp()), r)
}

/// The rectangle between the two flat sides of a pill, counter-clockwise.
pub open spec fn pill_flanks(a: Point, b: Point, r: int) -> Seq<Point> {
    let o = pill_offset(a, b, r);
    seq![a.plus(o), b.plus(o), b.minus(o), a.minus(o)]
}

/// Where the ray from `p` along `d` enters the pill around the segment `ab`:
/// the earliest of the impacts on the disc around `a`, on the disc around `b`
/// and on the rectangle between the flat sides. A ray that starts in the pill
/// enters nowhere.
pub open spec fn pill_impact(p: Point, d: Point, a: Point, b: Point, r: int) -> Option<Hit> {
    if near_segment(a, b, p, r) {
        None
    } else {
        earlier(
            earlier(disc_impact(p, d, a, r), disc_impact(p, d, b, r)),
            hull_impact(p, d, pill_flanks(a, b, r)),
        )
    }
}

/// Where the ray from `p` along `d` enters a shape, however long the ray is.
pub open spec fn impact(p: Point, d: Point, f: Figure) -> Option<Hit> {
    match f {
        Figure::Disc { c, r } => disc_impact(p, d, c, r),
        Figure::Rect { lo, hi } => hull_impact(p, d, corners(lo, hi)),
        Figure::Pill { a, b, r } => pill_impact(p, d, a, b, r),
        Figure::Hull { v } => hull_impact(p, d, v),
    }
}

/// An impact, if the ray of length `t` reaches it.
pub open spec fn reached(h: Option<Hit>, t: int) -> Option<Hit> {
    match h {
        Some(x) => if x.t <= t {
            h
        } else {
            None
        },
        None => None,
    }
}

/// Where the ray from `p` along `d` of length `t` enters a shape: the impact
/// of the endless ray, if it lies within `t`.
pub open spec fn ray_hit(p: Point, d: Point, t: int, f: Figure) -> Option<Hit> {
    reached(impact(p, d, f), t)
}

/// The distance, in steps of `1 / UNIT`, at which a ray enters a circle around
/// `c`, if it is within the ray's length.
fn circle_root(ray: &Ray, c: Vec2, r: i64) -> (res: Option<i64>)
    requires
        ray.wf(),
        c.in_world(),
        0 <= r <= LIMIT,
    ensures
        res == match disc_root(ray.p@, ray.d@, c@, r as int) {
            Some(root) => if root / (UNIT as int) <= ray.t {
                Some(root as i64)
            } else {
                None
            },
            None => None,
        },
        res matches Some(root) ==> 0 <= root && (root as int) / (UNIT as int) <= ray.t,
{
    let m = delta(ray.p, c);
    let b = dot(m, ray.d);
    proof {
        lemma_product_bound(r as int, r as int, LIMIT as int, LIMIT as int);
    }
    let rr: i128 = (r as i128) * (r as i128);
    let k: i128 = norm_sq(m) - rr;
    let uu: i128 = (UNIT as i128) * (UNIT as i128);
    proof {
        lemma_product_bound(b as int, b as int, AREA as int, AREA as int);
        lemma_product_bound(k as int, uu as int, AREA as int, 4294967296);
        assert(k * uu == k * UNIT * UNIT) by (nonlinear_arith)
            requires
                uu == UNIT * UNIT,
        ;
    }
    let disc: i128 = b * b - k * uu;
    if disc < 0 {
        return None;
    }
    let s = isqrt(disc as u128);
    proof {
        if s > 0x1_0000_0000_0000 {
            lemma_square_monotone(0x1_0000_0000_0000, s as int);
        }
    }
    let root: i128 = -b - (s as i128);
    if root < 0 {
        return None;
    }
    let t: i128 = root / (UNIT as i128);
    if t <= ray.t as i128 {
        Some(root as i64)
    } else {
        None
    }
}

/// Where a ray enters the circle of radius `r` around `c`.
fn ray_to_disc(ray: &Ray, c: Vec2, r: i64) -> (res: Option<RayCast>)
    requires
        ray.wf(),
        c.in_world(),
        0 <= r <= LIMIT,
    ensures
        seen(res) == reached(disc_impact(ray.p@, ray.d@, c@, r as int), ray.t as int),
        res matches Some(h) ==> h.wf(),
{
    match circle_root(ray, c, r) {
        Some(root) => {
            let m = delta(ray.p, c);
            proof {
                assert(root < (ray.t + 1) * UNIT) by (nonlinear_arith)
                    requires
                        (root as int) / (UNIT as int) <= ray.t,
                        root >= 0,
                        UNIT == 65536,
                ;
                lemma_product_bound(ray.d.x as int, root as int, UNIT as int, 0x2_0001_0000);
                lemma_product_bound(ray.d.y as int, root as int, UNIT as int, 0x2_0001_0000);
                lemma_trunc_div_bound(
                    ray.d.x * root,
                    UNIT as int,
                    0x2_0001_0000,
                );
                lemma_trunc_div_bound(
                    ray.d.y * root,
                    UNIT as int,
                    0x2_0001_0000,
                );
            }
            let sx = div_toward_zero((ray.d.x as i128) * (root as i128), UNIT as i128);
            let sy = div_toward_zero((ray.d.y as i128) * (root as i128), UNIT as i128);
            let h = Vec2 { x: m.x * UNIT + sx as i64, y: m.y * UNIT + sy as i64 };
            Some(RayCast { t: root / UNIT, n: unit_of(h) })
        },
        None => None,
    }
}

/// Where a ray enters a circle.
pub fn ray_to_circle(ray: &Ray, c: &Circle) -> (res: Option<RayCast>)
    requires
        ray.wf(),
        c.placed(),
    ensures
        seen(res) == ray_hit(ray.p@, ray.d@, ray.t as int, Figure::Disc { c: c.p@, r: c.r as int }),
        res matches Some(h) ==> h.wf(),
{
    ray_to_disc(ray, c.p, c.r)
}

/// The part of a ray inside the edges of a polygon seen so far, in machine
/// numbers.
struct Cut {
    ln: i128,
    ld: i128,
    hn: i128,
    hd: i128,
    index: usize,
    entered: bool,
    capped: bool,
    dead: bool,
}

impl Cut {
    spec fn model(self) -> Clip {
        Clip {
            ln: self.ln as int,
            ld: self.ld as int,
            hn: self.hn as int,
            hd: self.hd as int,
            index: if self.entered {
                self.index as int
            } else {
                -1
            },
            capped: self.capped,
            dead: self.dead,
        }
    }

    spec fn wf(self) -> bool {
        &&& 0 <= self.ln <= AREA
        &&& 1 <= self.ld <= AREA
        &&& within(self.hn as int, AREA as int)
        &&& 1 <= self.hd <= AREA
    }

    fn close(self) -> (r: Cut)
        requires
            self.wf(),
        ensures
            r.wf(),
            r.model() == clip_close(self.model()),
    {
        proof {
            lemma_product_bound(self.hn as int, self.ld as int, AREA as int, AREA as int);
            lemma_product_bound(self.ln as int, self.hd as int, AREA as int, AREA as int);
        }
        if self.capped && self.hn * self.ld < self.ln * self.hd {
            Cut {
                ln: self.ln,
                ld: self.ld,
                hn: self.hn,
                hd: self.hd,
                index: self.index,
                entered: self.entered,
                capped: self.capped,
                dead: true,
            }
        } else {
            self
        }
    }

    fn step(self, num: i128, den: i128, i: usize) -> (r: Cut)
        requires
            self.wf(),
            within(num as int, AREA as int),
            within(den as int, AREA as int),
        ensures
            r.wf(),
            r.model() == clip_step(self.model(), num as int, den as int, i as int),
    {
        proof {
            lemma_product_bound(num as int, self.ld as int, AREA as int, AREA as int);
            lemma_product_bound(self.ln as int, den as int, AREA as int, AREA as int);
            lemma_product_bound(num as int, self.hd as int, AREA as int, AREA as int);
            lemma_product_bound(self.hn as int, den as int, AREA as int, AREA as int);
            assert((-num) * self.ld == -(num * self.ld)) by (nonlinear_arith);
            assert(self.ln * (-den) == -(self.ln * den)) by (nonlinear_arith);
        }
        if self.dead {
            self
        } else if den == 0 {
            if num < 0 {
                Cut {
                    ln: self.ln,
                    ld: self.ld,
                    hn: self.hn,
                    hd: self.hd,
                    index: self.index,
                    entered: self.entered,
                    capped: self.capped,
                    dead: true,
                }
            } else {
                self
            }
        } else if den < 0 {
            if (-num) * self.ld > self.ln * (-den) {
                assert(num < 0) by (nonlinear_arith)
                    requires
                        (-num) * self.ld > self.ln * (-den),
                        self.ld >= 1,
                        self.ln >= 0,
                        den < 0,
                ;
                let c = Cut {
                    ln: -num,
                    ld: -den,
                    hn: self.hn,
                    hd: self.hd,
                    index: i,
                    entered: true,
                    capped: self.capped,
                    dead: false,
                };
                c.close()
            } else {
                self
            }
        } else {
            if !self.capped || num * self.hd < self.hn * den {
                let c = Cut {
                    ln: self.ln,
                    ld: self.ld,
                    hn: num,
                    hd: den,
                    index: self.index,
                    entered: self.entered,
                    capped: true,
                    dead: false,
                };
                c.close()
            } else {
                self
            }
        }
    }
}

/// Where a ray enters a polygon.
pub fn ray_to_poly(ray: &Ray, p: &Poly) -> (res: Option<RayCast>)
    requires
        ray.wf(),
        p.placed(),
    ensures
        seen(res) == ray_hit(ray.p@, ray.d@, ray.t as int, Figure::Hull { v: p@ }),
        res matches Some(h) ==> h.wf(),
{
    let mut cut = Cut {
        ln: 0,
        ld: 1,
        hn: 0,
        hd: 1,
        index: 0,
        entered: false,
        capped: false,
        dead: false,
    };
    let mut i: usize = 0;
    while i < p.count
        invariant
            0 <= i <= p.count,
            ray.wf(),
            p.placed(),
            cut.wf(),
            cut.entered ==> cut.index < p.count,
            cut.model() == hull_clip(ray.p@, ray.d@, p@, i as int),
        decreases p.count - i,
    {
        let n = p.norms[i];
        assert(n@ == edge_normal(p@, i as int));
        proof {
            assert(n.in_span()) by {
                let j = p.after(i as int);
                assert(p.verts[j].in_world());
                assert(p.verts[i as int].in_world());
            }
        }
        let num = dot(n, delta(p.verts[i], ray.p));
        let den = dot(n, ray.d);
        cut = cut.step(num, den, i);
        i = i + 1;
    }
    if cut.dead || !cut.entered || !spans_area(p) {
        return None;
    }
    proof {
        lemma_product_bound(UNIT as int, cut.ln as int, UNIT as int, AREA as int);
    }
    let t: i128 = ((UNIT as i128) * cut.ln) / cut.ld;
    if t <= ray.t as i128 {
        let n = p.norms[cut.index];
        assert(n@ == edge_normal(p@, cut.index as int));
        proof {
            assert(n.in_span()) by {
                let j = p.after(cut.index as int);
                assert(p.verts[j].in_world());
                assert(p.verts[cut.index as int].in_world());
            }
        }
        Some(RayCast { t: t as i64, n: unit_of(n) })
    } else {
        None
    }
}

/// Where a ray enters a box; the box stands for the polygon of its corners.
pub fn ray_to_aabb(ray: &Ray, b: &AABB) -> (res: Option<RayCast>)
    requires
        ray.wf(),
        b.wf(),
    ensures
        seen(res) == ray_hit(
            ray.p@,
            ray.d@,
            ray.t as int,
            Figure::Rect { lo: b.min@, hi: b.max@ },
        ),
        res matches Some(h) ==> h.wf(),
{
    let p = b.to_poly();
    ray_to_poly(ray, &p)
}

/// The earlier of two impacts; of two at the same distance, the first.
fn sooner(x: Option<RayCast>, y: Option<RayCast>) -> (r: Option<RayCast>)
    ensures
        seen(r) == earlier(seen(x), seen(y)),
        r == x || r == y,
{
    match (x, y) {
        (Some(a), Some(b)) => if b.t < a.t {
            y
        } else {
            x
        },
        (Some(_), None) => x,
        (None, _) => y,
    }
}

/// Dropping what lies beyond the ray's length before or after choosing the
/// earlier of two impacts gives the same.
proof fn lemma_reached_earlier(x: Option<Hit>, y: Option<Hit>, t: int)
    ensures
        reached(earlier(x, y), t) == earlier(reached(x, t), reached(y, t)),
{
}

/// Where a ray enters a capsule.
pub fn ray_to_capsule(ray: &Ray, c: &Capsule) -> (res: Option<RayCast>)
    requires
        ray.wf(),
        c.placed(),
    ensures
        seen(res) == ray_hit(
            ray.p@,
            ray.d@,
            ray.t as int,
            Figure::Pill { a: c.a@, b: c.b@, r: c.r as int },
        ),
        res matches Some(h) ==> h.wf(),
{
    if point_near_segment(c.a, c.b, ray.p, c.r) {
        return None;
    }
    let h1 = ray_to_disc(ray, c.a, c.r);
    let h2 = ray_to_disc(ray, c.b, c.r);
    let caps = sooner(h1, h2);
    let o = stretch_by(unit_of(perp(delta(c.b, c.a))), c.r);
    proof {
        lemma_reached_earlier(
            disc_impact(ray.p@, ray.d@, c.a@, c.r as int),
            disc_impact(ray.p@, ray.d@, c.b@, c.r as int),
            ray.t as int,
        );
    }
    let v0 = Vec2 { x: c.a.x + o.x, y: c.a.y + o.y };
    let v1 = Vec2 { x: c.b.x + o.x, y: c.b.y + o.y };
    let v2 = Vec2 { x: c.b.x - o.x, y: c.b.y - o.y };
    let v3 = Vec2 { x: c.a.x - o.x, y: c.a.y - o.y };
    let p = with_normals(4, [v0, v1, v2, v3, v0, v0, v0, v0]);
    assert(p@ =~= pill_flanks(c.a@, c.b@, c.r as int));
    let h3 = ray_to_poly(ray, &p);
    proof {
        lemma_reached_earlier(
            earlier(
                disc_impact(ray.p@, ray.d@, c.a@, c.r as int),
                disc_impact(ray.p@, ray.d@, c.b@, c.r as int),
            ),
            hull_impact(ray.p@, ray.d@, pill_flanks(c.a@, c.b@, c.r as int)),
            ray.t as int,
        );
    }
    sooner(caps, h3)
}

/// Where a ray enters a placed shape.
pub fn ray_to_solid(ray: &Ray, s: &Solid) -> (res: Option<RayCast>)
    requires
        ray.wf(),
        s.placed(),
    ensures
        seen(res) == ray_hit(ray.p@, ray.d@, ray.t as int, s.figure()),
        res matches Some(h) ==> h.wf(),
{
    match s {
        Solid::Circle(c) => ray_to_circle(ray, c),
        Solid::AABB(b) => ray_to_aabb(ray, b),
        Solid::Capsule(c) => ray_to_capsule(ray, c),
        Solid::Poly(p) => ray_to_poly(ray, p),
    }
}

/// Where a ray enters a shape once the shape is placed in the world: the
/// distance along the ray and the normal of the surface there, or nothing
/// where the ray misses the shape, ends before it, or starts inside it.
pub fn raycast(ray: &Ray, b: &Body) -> (res: Option<RayCast>)
    requires
        ray.wf(),
        b.wf(),
    ensures
        seen(res) == ray_hit(ray.p@, ray.d@, ray.t as int, b.figure()),
        res matches Some(h) ==> h.wf(),
{
    let s = b.place();
    ray_to_solid(ray, &s)
}

} // verus!
