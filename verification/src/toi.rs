//! The time of impact of two moving shapes, by conservative advancement.

use vstd::prelude::*;
use crate::collide::Body;
use crate::gjk::{
    frame, girth, gjk_cold, gjk_proxies, reply_distance, respond, GjkCache, GjkResponse, Proxy,
};
use crate::model::Figure;
use crate::scalar::{lemma_product_bound, lemma_trunc_div_bound, within, LIMIT, REACH, UNIT};
use crate::shapes::in_limit;
use crate::vec2::{dot, stretch, stretch_by, unit, unit_of, Point, Vec2};

verus! {

/// The largest number of advances in one query.
pub const TOI_ITERATIONS: i32 = 20;

/// When two moving shapes first touch within one step.
#[derive(Clone, Copy, Debug, PartialEq, Eq, Structural)]
pub enum Toi {
    /// The shapes touch at this time, counted in steps of `1 / UNIT` from the
    /// start of the step: 0 where they touch at the start, `UNIT` where they
    /// touch at the end.
    Impact(i64),
    /// The shapes were not found to touch within the step.
    NoImpact,
}

/// What one advance decides.
#[derive(Clone, Copy, Debug, PartialEq, Eq, Structural)]
pub enum Advance {
    /// The shapes touch now.
    Impact,
    /// The shapes do not come nearer, or do not meet within the step.
    NoImpact,
    /// The shapes cannot touch before this time.
    Continue(i64),
}

/// What an advance decides at the time `t` for shapes that are `distance`
/// apart and close in on each other at the speed `closing`, counted in
/// `1 / UNIT` of a length for each whole step.
///
/// Shapes at no distance touch. Shapes that do not close in never do. Otherwise
/// the shapes cannot touch before the time that the distance takes at this
/// speed, rounded down, but at least one step of time later; where that lies
/// beyond the end of the step there is no impact.
pub open spec fn advance(t: int, distance: int, closing: int) -> Advance {
    if distance <= 0 {
        Advance::Impact
    } else if closing <= 0 {
        Advance::NoImpact
    } else {
        let dt = (distance * UNIT * UNIT) / closing;
        let next = if dt == 0 {
            t + 1
        } else {
            t + dt
        };
        if next > UNIT {
            Advance::NoImpact
        } else {
            Advance::Continue(next as i64)
        }
    }
}

/// Decides one advance.
pub fn toi_step(t: i64, distance: i64, closing: i128) -> (r: Advance)
    requires
        0 <= t <= UNIT,
        0 <= distance <= 0x400_0000_0000,
        within(closing as int, 0x100_0000_0000),
    ensures
        r == advance(t as int, distance as int, closing as int),
        r matches Advance::Continue(n) ==> t < n <= UNIT,
{
    if distance <= 0 {
        return Advance::Impact;
    }
    if closing <= 0 {
        return Advance::NoImpact;
    }
    let uu: i128 = (UNIT as i128) * (UNIT as i128);
    proof {
        lemma_product_bound(distance as int, uu as int, 0x400_0000_0000, 4294967296);
        assert(distance * uu == distance * UNIT * UNIT) by (nonlinear_arith)
            requires
                uu == UNIT * UNIT,
        ;
        assert(distance * uu >= 0) by (nonlinear_arith)
            requires
                distance >= 0,
                uu >= 0,
        ;
    }
    let dt: i128 = ((distance as i128) * uu) / closing;
    proof {
        assert(0 <= dt <= distance * uu) by (nonlinear_arith)
            requires
                dt == (distance * uu) / (closing as int),
                distance * uu >= 0,
                closing >= 1,
        ;
    }
    let next: i128 = if dt == 0 {
        t as i128 + 1
    } else {
        t as i128 + dt
    };
    if next > UNIT as i128 {
        Advance::NoImpact
    } else {
        Advance::Continue(next as i64)
    }
}

/// The points `v`, each moved by `s`.
pub open spec fn shift(v: Seq<Point>, s: Point) -> Seq<Point> {
    Seq::new(v.len(), |i: int| v[i].plus(s))
}

impl Proxy {
    /// The shape moved by `s`.
    pub fn moved(&self, s: Vec2) -> (p: Proxy)
        requires
            self.wf(),
            self.reach(),
            in_limit(s),
        ensures
            p.wf(),
            p@ == shift(self@, s@),
            p.radius == self.radius,
    {
        let mut p = *self;
        let mut i: usize = 0;
        while i < self.count
            invariant
                0 <= i <= self.count,
                self.wf(),
                self.reach(),
                in_limit(s),
                p.count == self.count,
                p.radius == self.radius,
                forall|k: int|
                    0 <= k < i ==> (#[trigger] p.verts[k])@ == self.verts[k]@.plus(s@)
                        && p.verts[k].in_world(),
                forall|k: int| i <= k < self.count ==> (#[trigger] p.verts[k]) == self.verts[k],
            decreases self.count - i,
        {
            let v = self.verts[i];
            assert(v@.bounded(REACH as int));
            p.verts[i] = Vec2 { x: v.x + s.x, y: v.y + s.y };
            i = i + 1;
        }
        assert(p@ =~= shift(self@, s@));
        p
    }
}

/// `r` is what the engine finds for the shapes with the vertices `a` and `b`
/// and the radii `ra` and `rb`, and it finds them at no distance.
pub open spec fn found_touching(
    r: GjkResponse,
    a: Seq<Point>,
    ra: int,
    b: Seq<Point>,
    rb: int,
    use_radius: bool,
) -> bool {
    &&& r.found.describes(a, b)
    &&& r@ == respond(r.found, a, ra, b, rb, use_radius)
    &&& r.distance == 0
}

/// The engine finds the shapes `f` and `g`, moved for the time `t` at the
/// velocities `vf` and `vg`, at no distance from each other.
pub open spec fn touching_at(
    f: Figure,
    vf: Point,
    g: Figure,
    vg: Point,
    t: int,
    use_radius: bool,
) -> bool {
    exists|r: GjkResponse| #[trigger]
        found_touching(
            r,
            shift(frame(f), stretch(vf, t)),
            girth(f),
            shift(frame(g), stretch(vg, t)),
            girth(g),
            use_radius,
        )
}

/// The time of impact of two shapes with the vertices `a` and `b`, the radii
/// `ra` and `rb` and the velocities `va` and `vb`, found from the time `t`
/// after `iter` advances, and the number of advances made in all.
///
/// The shapes are moved to the time `t`, and the engine measures their
/// distance and the direction from the first to the second. The speed at which
/// they close in along that direction decides the advance. After
/// `TOI_ITERATIONS` advances without an impact there is none.
pub open spec fn toi_run(
    a: Seq<Point>,
    ra: int,
    va: Point,
    b: Seq<Point>,
    rb: int,
    vb: Point,
    use_radius: bool,
    t: int,
    iter: int,
) -> (Toi, int)
    decreases TOI_ITERATIONS - iter,
{
    let o = gjk_cold(shift(a, stretch(va, t)), shift(b, stretch(vb, t)));
    let closing = va.minus(vb).dot(unit(o.d.neg()));
    match advance(t, reply_distance(o, ra, rb, use_radius), closing) {
        Advance::Impact => (Toi::Impact(t as i64), iter + 1),
        Advance::NoImpact => (Toi::NoImpact, iter + 1),
        Advance::Continue(next) => if iter + 1 >= TOI_ITERATIONS {
            (Toi::NoImpact, iter + 1)
        } else {
            toi_run(a, ra, va, b, rb, vb, use_radius, next as int, iter + 1)
        },
    }
}

/// The time of impact of two placed shapes that move at the velocities `vf`
/// and `vg`, and the number of advances that finding it takes.
pub open spec fn toi_of(f: Figure, vf: Point, g: Figure, vg: Point, use_radius: bool) -> (Toi, int) {
    toi_run(frame(f), girth(f), vf, frame(g), girth(g), vg, use_radius, 0, 0)
}

/// The result of a query for the time of impact, and the number of advances
/// that it took.
#[derive(Clone, Copy, Debug)]
pub struct ToiResponse {
    pub toi: Toi,
    pub iterations: i32,
}

/// The earliest time within one step at which two shapes touch that move at
/// the constant velocities `va` and `vb`, each a displacement for the whole
/// step.
///
/// The shapes are advanced in turn: the engine measures their distance and the
/// direction between their closest points; the speed at which they close in
/// along that direction bounds the time before which they cannot touch; the
/// shapes are moved to that time. An impact is reported at the first time at
/// which the engine finds them at no distance. No impact is reported where
/// they do not close in, where the time passes the end of the step, and after
/// `TOI_ITERATIONS` advances.
pub fn time_of_impact(a: &Body, va: Vec2, b: &Body, vb: Vec2, use_radius: bool) -> (r:
    ToiResponse)
    requires
        a.wf(),
        b.wf(),
        in_limit(va),
        in_limit(vb),
    ensures
        (r.toi, r.iterations as int) == toi_of(a.figure(), va@, b.figure(), vb@, use_radius),
        1 <= r.iterations <= TOI_ITERATIONS,
        r.toi matches Toi::Impact(t) ==> 0 <= t <= UNIT && touching_at(
            a.figure(),
            va@,
            b.figure(),
            vb@,
            t as int,
            use_radius,
        ),
{
    let x = a.place();
    let y = b.place();
    let pa = x.proxy();
    let pb = y.proxy();
    let rel = Vec2 { x: va.x - vb.x, y: va.y - vb.y };
    let mut t: i64 = 0;
    let mut iter: i32 = 0;
    loop
        invariant
            0 <= iter < TOI_ITERATIONS,
            0 <= t <= UNIT,
            pa.wf(),
            pb.wf(),
            pa.reach(),
            pb.reach(),
            pa@ == frame(a.figure()),
            pb@ == frame(b.figure()),
            pa.radius == girth(a.figure()),
            pb.radius == girth(b.figure()),
            in_limit(va),
            in_limit(vb),
            rel@ == va@.minus(vb@),
            toi_run(
                pa@,
                pa.radius as int,
                va@,
                pb@,
                pb.radius as int,
                vb@,
                use_radius,
                t as int,
                iter as int,
            ) == toi_of(a.figure(), va@, b.figure(), vb@, use_radius),
        decreases TOI_ITERATIONS - iter,
    {
        iter = iter + 1;
        let sa = stretch_by(va, t);
        let sb = stretch_by(vb, t);
        proof {
            lemma_stretch_within(va@, t as int);
            lemma_stretch_within(vb@, t as int);
        }
        let qa = pa.moved(sa);
        let qb = pb.moved(sb);
        let mut cache = GjkCache::new();
        let g = gjk_proxies(&qa, &qb, use_radius, &mut cache);
        let n = unit_of(Vec2 { x: -g.found.d.x, y: -g.found.d.y });
        let closing = dot(rel, n);
        match toi_step(t, g.distance, closing) {
            Advance::Impact => {
                assert(found_touching(
                    g,
                    shift(frame(a.figure()), stretch(va@, t as int)),
                    girth(a.figure()),
                    shift(frame(b.figure()), stretch(vb@, t as int)),
                    girth(b.figure()),
                    use_radius,
                ));
                return ToiResponse { toi: Toi::Impact(t), iterations: iter };
            },
            Advance::NoImpact => {
                return ToiResponse { toi: Toi::NoImpact, iterations: iter };
            },
            Advance::Continue(next) => {
                if iter == TOI_ITERATIONS {
                    return ToiResponse { toi: Toi::NoImpact, iterations: iter };
                }
                t = next;
            },
        }
    }
}

/// A velocity within `LIMIT`, stretched by a time within one step, stays
/// within `LIMIT`.
proof fn lemma_stretch_within(v: Point, t: int)
    requires
        v.bounded(LIMIT as int),
        0 <= t <= UNIT,
    ensures
        stretch(v, t).bounded(LIMIT as int),
{
    assert(-(LIMIT * UNIT) <= v.x * t <= LIMIT * UNIT) by (nonlinear_arith)
        requires
            -LIMIT <= v.x <= LIMIT,
            0 <= t <= UNIT,
    ;
    assert(-(LIMIT * UNIT) <= v.y * t <= LIMIT * UNIT) by (nonlinear_arith)
        requires
            -LIMIT <= v.y <= LIMIT,
            0 <= t <= UNIT,
    ;
    lemma_trunc_div_bound(v.x * t, UNIT as int, LIMIT as int);
    lemma_trunc_div_bound(v.y * t, UNIT as int, LIMIT as int);
}

} // verus!
