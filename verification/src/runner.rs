//! The builders through which the distance and the time of impact of two
//! shapes are asked for.

use vstd::prelude::*;
use crate::gjk::{frame, girth, gjk, gjk_cold, gjk_run, respond, GjkCache, GjkResponse};
use crate::scalar::UNIT;
use crate::shape::Shape;
use crate::shapes::in_limit;
use crate::toi::{time_of_impact, toi_of, touching_at, Toi, TOI_ITERATIONS};
use crate::vec2::Vec2;

verus! {

/// A builder for running the GJK algorithm: the two shapes, whether the
/// radius of a circle or a capsule counts as part of the shape (it does unless
/// said otherwise), the cache to start from and to leave the last simplex in
/// (none unless one is set), and where to write the number of refinements
/// (nowhere unless a place is set).
pub struct GjkRunner<'a, ShapeA, ShapeB> {
    pub a: &'a ShapeA,
    pub b: &'a ShapeB,
    pub use_radius: bool,
    pub cache: Option<&'a mut GjkCache>,
    pub iterations: Option<&'a mut i32>,
}

/// A builder for finding the time of impact for two shapes: the two shapes,
/// the velocity of each (at rest unless set), whether the radius of a circle
/// or a capsule counts as part of the shape (it does unless said otherwise),
/// and where to write the number of advances (nowhere unless a place is set).
pub struct ToiRunner<'a, ShapeA, ShapeB> {
    pub a: &'a ShapeA,
    pub b: &'a ShapeB,
    pub a_velocity: Vec2,
    pub b_velocity: Vec2,
    pub use_radius: bool,
    pub iterations: Option<&'a mut i32>,
}

impl<'a, ShapeA: Shape, ShapeB: Shape> GjkRunner<'a, ShapeA, ShapeB> {
    /// A query for the distance of `a` and `b`, with the radii, without a
    /// cache.
    pub fn new(a: &'a ShapeA, b: &'a ShapeB) -> (r: GjkRunner<'a, ShapeA, ShapeB>)
        ensures
            r.a == a,
            r.b == b,
            r.use_radius,
            r.cache is None,
            r.iterations is None,
    {
        GjkRunner { a, b, use_radius: true, cache: None, iterations: None }
    }

    /// Says whether the radius of a circle or a capsule counts as part of the
    /// shape.
    pub fn use_radius(self, use_radius: bool) -> (r: GjkRunner<'a, ShapeA, ShapeB>)
        ensures
            r.a == self.a,
            r.b == self.b,
            r.use_radius == use_radius,
            r.cache == self.cache,
            r.iterations == self.iterations,
    {
        GjkRunner {
            a: self.a,
            b: self.b,
            use_radius,
            cache: self.cache,
            iterations: self.iterations,
        }
    }

    /// Sets the cache that the query starts from and leaves its last simplex
    /// in.
    pub fn set_cache(self, cache: &'a mut GjkCache) -> (r: GjkRunner<'a, ShapeA, ShapeB>)
        ensures
            r.a == self.a,
            r.b == self.b,
            r.use_radius == self.use_radius,
            r.cache matches Some(c) && *c == *old(cache) && *final(c) == *final(cache),
            r.iterations == self.iterations,
    {
        GjkRunner {
            a: self.a,
            b: self.b,
            use_radius: self.use_radius,
            cache: Some(cache),
            iterations: self.iterations,
        }
    }

    /// Sets the place that the query writes its number of refinements to.
    pub fn set_iterations(self, iterations: &'a mut i32) -> (r: GjkRunner<'a, ShapeA, ShapeB>)
        ensures
            r.a == self.a,
            r.b == self.b,
            r.use_radius == self.use_radius,
            r.cache == self.cache,
            r.iterations matches Some(p) && *final(p) == *final(iterations),
    {
        GjkRunner {
            a: self.a,
            b: self.b,
            use_radius: self.use_radius,
            cache: self.cache,
            iterations: Some(iterations),
        }
    }

    /// Finds the closest pair between two shapes
    pub fn run(self) -> (r: GjkResponse)
        requires
            self.a.body().wf(),
            self.b.body().wf(),
        ensures
            r.found.describes(frame(self.a.body().figure()), frame(self.b.body().figure())),
            r.found@ == match self.cache {
                Some(c) => gjk_run(
                    frame(self.a.body().figure()),
                    frame(self.b.body().figure()),
                    *c,
                ),
                None => gjk_cold(frame(self.a.body().figure()), frame(self.b.body().figure())),
            },
            r@ == respond(
                r.found,
                frame(self.a.body().figure()),
                girth(self.a.body().figure()),
                frame(self.b.body().figure()),
                girth(self.b.body().figure()),
                self.use_radius,
            ),
            r.iterations == r.found.iterations,
            r.exact == r.found.exact,
            0 <= r.distance,
            self.cache matches Some(c) ==> *final(c) == r.found.simplex,
            self.iterations matches Some(p) ==> *final(p) == r.iterations,
    {
        let a = self.a.shape();
        let b = self.b.shape();
        let r = match self.cache {
            Some(c) => gjk(&a, &b, self.use_radius, c),
            None => {
                let mut fresh = GjkCache::new();
                gjk(&a, &b, self.use_radius, &mut fresh)
            },
        };
        match self.iterations {
            Some(p) => {
                *p = r.iterations;
            },
            None => {},
        }
        r
    }
}

impl<'a, ShapeA: Shape, ShapeB: Shape> ToiRunner<'a, ShapeA, ShapeB> {
    /// A query for the time of impact of `a` and `b`, both at rest, with the
    /// radii.
    pub fn new(a: &'a ShapeA, b: &'a ShapeB) -> (r: ToiRunner<'a, ShapeA, ShapeB>)
        ensures
            r.a == a,
            r.b == b,
            r.a_velocity == (Vec2 { x: 0, y: 0 }),
            r.b_velocity == (Vec2 { x: 0, y: 0 }),
            r.use_radius,
            r.iterations is None,
    {
        ToiRunner {
            a,
            b,
            a_velocity: Vec2 { x: 0, y: 0 },
            b_velocity: Vec2 { x: 0, y: 0 },
            use_radius: true,
            iterations: None,
        }
    }

    /// Sets the velocities of the two shapes: the way that each goes in the
    /// whole step.
    pub fn set_velocities(self, a_velocity: Vec2, b_velocity: Vec2) -> (r: ToiRunner<
        'a,
        ShapeA,
        ShapeB,
    >)
        ensures
            r.a == self.a,
            r.b == self.b,
            r.a_velocity == a_velocity,
            r.b_velocity == b_velocity,
            r.use_radius == self.use_radius,
            r.iterations == self.iterations,
    {
        ToiRunner {
            a: self.a,
            b: self.b,
            a_velocity,
            b_velocity,
            use_radius: self.use_radius,
            iterations: self.iterations,
        }
    }

    /// Says whether the radius of a circle or a capsule counts as part of the
    /// shape.
    pub fn use_radius(self, use_radius: bool) -> (r: ToiRunner<'a, ShapeA, ShapeB>)
        ensures
            r.a == self.a,
            r.b == self.b,
            r.a_velocity == self.a_velocity,
            r.b_velocity == self.b_velocity,
            r.use_radius == use_radius,
            r.iterations == self.iterations,
    {
        ToiRunner {
            a: self.a,
            b: self.b,
            a_velocity: self.a_velocity,
            b_velocity: self.b_velocity,
            use_radius,
            iterations: self.iterations,
        }
    }

    /// Sets the place that the query writes its number of advances to.
    pub fn set_iterations(self, iterations: &'a mut i32) -> (r: ToiRunner<'a, ShapeA, ShapeB>)
        ensures
            r.a == self.a,
            r.b == self.b,
            r.a_velocity == self.a_velocity,
            r.b_velocity == self.b_velocity,
            r.use_radius == self.use_radius,
            r.iterations matches Some(p) && *final(p) == *final(iterations),
    {
        ToiRunner {
            a: self.a,
            b: self.b,
            a_velocity: self.a_velocity,
            b_velocity: self.b_velocity,
            use_radius: self.use_radius,
            iterations: Some(iterations),
        }
    }

    /// Finds the time within the step at which the two shapes first touch.
    pub fn run(self) -> (r: Toi)
        requires
            self.a.body().wf(),
            self.b.body().wf(),
            in_limit(self.a_velocity),
            in_limit(self.b_velocity),
        ensures
            r == toi_of(
                self.a.body().figure(),
                self.a_velocity@,
                self.b.body().figure(),
                self.b_velocity@,
                self.use_radius,
            ).0,
            self.iterations matches Some(p) ==> *final(p) == toi_of(
                self.a.body().figure(),
                self.a_velocity@,
                self.b.body().figure(),
                self.b_velocity@,
                self.use_radius,
            ).1,
            r matches Toi::Impact(t) ==> 0 <= t <= UNIT && touching_at(
                self.a.body().figure(),
                self.a_velocity@,
                self.b.body().figure(),
                self.b_velocity@,
                t as int,
                self.use_radius,
            ),
            self.iterations matches Some(p) ==> 1 <= *final(p) <= TOI_ITERATIONS,
    {
        let a = self.a.shape();
        let b = self.b.shape();
        let r = time_of_impact(&a, self.a_velocity, &b, self.b_velocity, self.use_radius);
        match self.iterations {
            Some(p) => {
                *p = r.iterations;
            },
            None => {},
        }
        r.toi
    }
}

} // verus!
