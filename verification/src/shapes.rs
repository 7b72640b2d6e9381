//! The round and the axis-aligned shapes, rotations and transformations.

use vstd::prelude::*;
use vstd::std_specs::convert::IntoSpec;
use crate::scalar::{
    div_toward_zero, lemma_product_bound, lemma_trunc_div_bound, trunc_div, within, LIMIT, REACH,
    UNIT,
};
use crate::vec2::{Point, Vec2};

verus! {

/// Why a shape or a transformation could not be built.
#[derive(Clone, Copy, Debug, PartialEq, Eq, Structural)]
pub enum ShapeError {
    /// The radius is negative.
    NegativeRadius,
    /// A coordinate or the radius exceeds `LIMIT` in magnitude.
    OutOfRange,
    /// The minimum corner of a box lies beyond its maximum corner.
    InvertedBounds,
    /// The vertices of a polygon do not span an area.
    Degenerate,
}

/// Both coordinates of `p` lie within `LIMIT`.
pub open spec fn in_limit(p: Vec2) -> bool {
    p@.bounded(LIMIT as int)
}

/// Tells whether both coordinates of `p` lie within `LIMIT`.
pub fn check_limit(p: Vec2) -> (r: bool)
    ensures
        r == in_limit(p),
{
    -LIMIT <= p.x && p.x <= LIMIT && -LIMIT <= p.y && p.y <= LIMIT
}

/// Rotation, an angle, held as its cosine and sine in steps of `1 / UNIT`.
#[derive(Clone, Copy, Debug, PartialEq, Eq, Structural)]
pub struct Rotation {
    pub c: i64,
    pub s: i64,
}

impl Rotation {
    /// Cosine and sine lie in `[-UNIT, UNIT]`, and the sum of their squares
    /// differs from `UNIT * UNIT` by at most `2 * UNIT + 1`.
    pub open spec fn wf(self) -> bool {
        &&& within(self.c as int, UNIT as int)
        &&& within(self.s as int, UNIT as int)
        &&& within(self.c * self.c + self.s * self.s - UNIT * UNIT, 2 * UNIT + 1)
    }

    /// The vector `p` turned by this rotation, each coordinate rounded toward
    /// zero.
    pub open spec fn turn(self, p: Point) -> Point {
        Point {
            x: trunc_div(self.c * p.x - self.s * p.y, UNIT as int),
            y: trunc_div(self.s * p.x + self.c * p.y, UNIT as int),
        }
    }

    /// No rotation
    pub fn zero() -> (r: Rotation)
        ensures
            r.c == UNIT,
            r.s == 0,
            r.wf(),
    {
        Rotation { c: UNIT, s: 0 }
    }

    /// cos(angle), in steps of `1 / UNIT`
    pub fn cos(self) -> (r: i64)
        ensures
            r == self.c,
    {
        self.c
    }

    /// sin(angle), in steps of `1 / UNIT`
    pub fn sin(self) -> (r: i64)
        ensures
            r == self.s,
    {
        self.s
    }
}

/// A vector within `LIMIT` stays within `2 * LIMIT` under any rotation.
pub proof fn lemma_turn_bounded(r: Rotation, p: Point)
    requires
        r.wf(),
        p.bounded(LIMIT as int),
    ensures
        r.turn(p).bounded(2 * LIMIT),
        within(r.c * p.x - r.s * p.y, 2 * UNIT * LIMIT),
        within(r.s * p.x + r.c * p.y, 2 * UNIT * LIMIT),
{
    lemma_product_bound(r.c as int, p.x, UNIT as int, LIMIT as int);
    lemma_product_bound(r.s as int, p.y, UNIT as int, LIMIT as int);
    lemma_product_bound(r.s as int, p.x, UNIT as int, LIMIT as int);
    lemma_product_bound(r.c as int, p.y, UNIT as int, LIMIT as int);
    lemma_trunc_div_bound(r.c * p.x - r.s * p.y, UNIT as int, 2 * LIMIT);
    lemma_trunc_div_bound(r.s * p.x + r.c * p.y, UNIT as int, 2 * LIMIT);
}

/// For transforming the position and rotation of polygons
#[derive(Clone, Copy, Debug, PartialEq, Eq, Structural)]
pub struct Transformation {
    pub p: Vec2,
    pub r: Rotation,
}

impl Transformation {
    /// The position lies within `LIMIT` and the rotation is well formed.
    pub open spec fn wf(self) -> bool {
        in_limit(self.p) && self.r.wf()
    }

    /// Where the transformation takes the point `v` of a shape: the point is
    /// turned about the origin, then moved by the position.
    pub open spec fn apply(self, v: Point) -> Point {
        self.r.turn(v).plus(self.p@)
    }

    /// What `new` returns for a position and a rotation.
    pub open spec fn checked(position: Vec2, rotation: Rotation) -> Result<
        Transformation,
        ShapeError,
    > {
        if in_limit(position) {
            Ok(Transformation { p: position, r: rotation })
        } else {
            Err(ShapeError::OutOfRange)
        }
    }

    /// Creates a new transformation with a position and an angle; a position
    /// beyond `LIMIT` is refused.
    pub fn new<V: Into<Vec2>>(position: V, rotation: Rotation) -> (r: Result<
        Transformation,
        ShapeError,
    >)
        requires
            rotation.wf(),
        ensures
            V::obeys_into_spec() ==> r == Self::checked(position.into_spec(), rotation),
            r matches Ok(x) ==> x.wf() && x.r == rotation,
    {
        let p: Vec2 = position.into();
        if check_limit(p) {
            Ok(Transformation { p, r: rotation })
        } else {
            Err(ShapeError::OutOfRange)
        }
    }

    /// The transformation that leaves every shape where it is.
    pub fn identity() -> (x: Transformation)
        ensures
            x.wf(),
            x.p == (Vec2 { x: 0, y: 0 }),
            x.r.c == UNIT,
            x.r.s == 0,
    {
        Transformation { p: Vec2 { x: 0, y: 0 }, r: Rotation::zero() }
    }

    /// Gets the position of the tranformation
    pub fn position(self) -> (p: Vec2)
        ensures
            p == self.p,
    {
        self.p
    }

    /// Moves the transformation to `position`; a position beyond `LIMIT` is
    /// refused and leaves the transformation as it was.
    pub fn set_position(&mut self, position: Vec2) -> (r: Result<(), ShapeError>)
        ensures
            in_limit(position) ==> r is Ok && final(self).p == position,
            !in_limit(position) ==> r == Err::<(), ShapeError>(ShapeError::OutOfRange)
                && final(self).p == old(self).p,
            final(self).r == old(self).r,
            old(self).wf() ==> final(self).wf(),
    {
        if check_limit(position) {
            self.p = position;
            Ok(())
        } else {
            Err(ShapeError::OutOfRange)
        }
    }

    /// Gets the rotation of the transformation
    pub fn rotation(self) -> (r: Rotation)
        ensures
            r == self.r,
    {
        self.r
    }

    /// Replaces the rotation.
    pub fn set_rotation(&mut self, rotation: Rotation)
        ensures
            final(self).r == rotation,
            final(self).p == old(self).p,
            old(self).wf() && rotation.wf() ==> final(self).wf(),
    {
        self.r = rotation;
    }

    /// Takes a point of a shape to its place in the world.
    pub fn place(&self, v: Vec2) -> (w: Vec2)
        requires
            self.wf(),
            in_limit(v),
        ensures
            w@ == self.apply(v@),
            w@.bounded(REACH as int),
            w.in_world(),
    {
        proof {
            lemma_turn_bounded(self.r, v@);
            lemma_product_bound(self.r.c as int, v.x as int, UNIT as int, LIMIT as int);
            lemma_product_bound(self.r.s as int, v.y as int, UNIT as int, LIMIT as int);
            lemma_product_bound(self.r.s as int, v.x as int, UNIT as int, LIMIT as int);
            lemma_product_bound(self.r.c as int, v.y as int, UNIT as int, LIMIT as int);
        }
        let c: i128 = self.r.c as i128;
        let s: i128 = self.r.s as i128;
        let x: i128 = v.x as i128;
        let y: i128 = v.y as i128;
        let rx: i128 = div_toward_zero(c * x - s * y, UNIT as i128);
        let ry: i128 = div_toward_zero(s * x + c * y, UNIT as i128);
        Vec2 { x: (rx + self.p.x as i128) as i64, y: (ry + self.p.y as i128) as i64 }
    }
}

/// Takes a point of a shape to its place in the world under an optional
/// transformation; without one the point stays where it is.
pub open spec fn place_point(x: Option<Transformation>, v: Point) -> Point {
    match x {
        Some(t) => t.apply(v),
        None => v,
    }
}

/// Takes a point of a shape to its place in the world under an optional
/// transformation.
pub fn place_at(x: &Option<Transformation>, v: Vec2) -> (w: Vec2)
    requires
        x matches Some(t) ==> t.wf(),
        in_limit(v),
    ensures
        w@ == place_point(*x, v@),
        w@.bounded(REACH as int),
        w.in_world(),
{
    match x {
        Some(t) => t.place(v),
        None => v,
    }
}

/// A circle with a point and a radius
#[derive(Clone, Copy, Debug, PartialEq, Eq, Structural)]
pub struct Circle {
    pub p: Vec2,
    pub r: i64,
}

impl Circle {
    /// The circle as built: the centre within `LIMIT`, the radius in
    /// `[0, LIMIT]`.
    pub open spec fn wf(self) -> bool {
        in_limit(self.p) && 0 <= self.r <= LIMIT
    }

    /// The circle as placed in the world: the centre within `WORLD`, the radius
    /// in `[0, LIMIT]`.
    pub open spec fn placed(self) -> bool {
        self.p.in_world() && 0 <= self.r <= LIMIT
    }

    /// What `new` returns for a centre and a radius.
    pub open spec fn checked(position: Vec2, radius: i64) -> Result<Circle, ShapeError> {
        if radius < 0 {
            Err(ShapeError::NegativeRadius)
        } else if !in_limit(position) || radius > LIMIT {
            Err(ShapeError::OutOfRange)
        } else {
            Ok(Circle { p: position, r: radius })
        }
    }

    /// Creates a circle from a position and a radius. A negative radius is
    /// refused, and so is a centre or a radius beyond `LIMIT`.
    pub fn new<V: Into<Vec2>>(position: V, radius: i64) -> (r: Result<Circle, ShapeError>)
        ensures
            V::obeys_into_spec() ==> r == Self::checked(position.into_spec(), radius),
            r matches Ok(c) ==> c.wf() && c.r == radius,
            radius < 0 <==> r == Err::<Circle, ShapeError>(ShapeError::NegativeRadius),
    {
        let p: Vec2 = position.into();
        if radius < 0 {
            Err(ShapeError::NegativeRadius)
        } else if !check_limit(p) || radius > LIMIT {
            Err(ShapeError::OutOfRange)
        } else {
            Ok(Circle { p, r: radius })
        }
    }

    /// Places the circle in the world under an optional transformation: the
    /// centre moves, the radius stays.
    pub fn place(&self, x: &Option<Transformation>) -> (w: Circle)
        requires
            self.wf(),
            x matches Some(t) ==> t.wf(),
        ensures
            w.p@ == place_point(*x, self.p@),
            w.r == self.r,
            w.placed(),
            w.p@.bounded(REACH as int),
    {
        Circle { p: place_at(x, self.p), r: self.r }
    }
}

/// Rectangle with a min vector and a max vector
#[derive(Clone, Copy, Debug, PartialEq, Eq, Structural)]
pub struct AABB {
    pub min: Vec2,
    pub max: Vec2,
}

impl AABB {
    /// Both corners lie within `LIMIT`, and the minimum corner is not beyond
    /// the maximum corner in either coordinate.
    pub open spec fn wf(self) -> bool {
        &&& in_limit(self.min)
        &&& in_limit(self.max)
        &&& self.min.x <= self.max.x
        &&& self.min.y <= self.max.y
    }

    /// What `new` returns for two corners.
    pub open spec fn checked(min: Vec2, max: Vec2) -> Result<AABB, ShapeError> {
        if !in_limit(min) || !in_limit(max) {
            Err(ShapeError::OutOfRange)
        } else if min.x > max.x || min.y > max.y {
            Err(ShapeError::InvertedBounds)
        } else {
            Ok(AABB { min, max })
        }
    }

    /// Creates a new AABB rectangle. Corners beyond `LIMIT` are refused, and so
    /// is a minimum corner that lies beyond the maximum corner.
    pub fn new<V: Into<Vec2>>(min: V, max: V) -> (r: Result<AABB, ShapeError>)
        ensures
            V::obeys_into_spec() ==> r == Self::checked(min.into_spec(), max.into_spec()),
            r matches Ok(b) ==> b.wf(),
    {
        let lo: Vec2 = min.into();
        let hi: Vec2 = max.into();
        if !check_limit(lo) || !check_limit(hi) {
            Err(ShapeError::OutOfRange)
        } else if lo.x > hi.x || lo.y > hi.y {
            Err(ShapeError::InvertedBounds)
        } else {
            Ok(AABB { min: lo, max: hi })
        }
    }

    /// The minimum position
    pub fn min(self) -> (p: Vec2)
        ensures
            p == self.min,
    {
        self.min
    }

    /// The maximum position
    pub fn max(self) -> (p: Vec2)
        ensures
            p == self.max,
    {
        self.max
    }
}

/// A capsule with a line segment and a radius
#[derive(Clone, Copy, Debug, PartialEq, Eq, Structural)]
pub struct Capsule {
    pub a: Vec2,
    pub b: Vec2,
    pub r: i64,
}

impl Capsule {
    /// The capsule as built: both ends within `LIMIT`, the radius in
    /// `[0, LIMIT]`.
    pub open spec fn wf(self) -> bool {
        in_limit(self.a) && in_limit(self.b) && 0 <= self.r <= LIMIT
    }

    /// The capsule as placed in the world: both ends within `REACH`, the radius
    /// in `[0, LIMIT]`.
    pub open spec fn placed(self) -> bool {
        self.a@.bounded(REACH as int) && self.b@.bounded(REACH as int) && 0 <= self.r <= LIMIT
    }

    /// What `new` returns for two ends and a radius.
    pub open spec fn checked(start: Vec2, end: Vec2, radius: i64) -> Result<Capsule, ShapeError> {
        if radius < 0 {
            Err(ShapeError::NegativeRadius)
        } else if !in_limit(start) || !in_limit(end) || radius > LIMIT {
            Err(ShapeError::OutOfRange)
        } else {
            Ok(Capsule { a: start, b: end, r: radius })
        }
    }

    /// Creates a capsule from a start position, an end position and a radius.
    /// A negative radius is refused, and so is an end or a radius beyond
    /// `LIMIT`.
    pub fn new<V: Into<Vec2>>(start: V, end: V, radius: i64) -> (r: Result<Capsule, ShapeError>)
        ensures
            V::obeys_into_spec() ==> r == Self::checked(
                start.into_spec(),
                end.into_spec(),
                radius,
            ),
            r matches Ok(c) ==> c.wf() && c.r == radius,
            radius < 0 <==> r == Err::<Capsule, ShapeError>(ShapeError::NegativeRadius),
    {
        let a: Vec2 = start.into();
        let b: Vec2 = end.into();
        if radius < 0 {
            Err(ShapeError::NegativeRadius)
        } else if !check_limit(a) || !check_limit(b) || radius > LIMIT {
            Err(ShapeError::OutOfRange)
        } else {
            Ok(Capsule { a, b, r: radius })
        }
    }

    /// Places the capsule in the world under an optional transformation: the
    /// two ends move, the radius stays.
    pub fn place(&self, x: &Option<Transformation>) -> (w: Capsule)
        requires
            self.wf(),
            x matches Some(t) ==> t.wf(),
        ensures
            w.a@ == place_point(*x, self.a@),
            w.b@ == place_point(*x, self.b@),
            w.r == self.r,
            w.placed(),
    {
        Capsule { a: place_at(x, self.a), b: place_at(x, self.b), r: self.r }
    }
}

} // verus!
