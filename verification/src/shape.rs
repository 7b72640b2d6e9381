//! The traits through which the four kinds of shape, alone or paired with a
//! transformation, are handed to the collision queries.

use vstd::prelude::*;
use crate::collide::{collides, Body, Type};
use crate::manifold::{manifold, touch, Manifold};
use crate::model::meets;
use crate::poly::Poly;
use crate::ray::{ray_hit, raycast, seen, Ray, RayCast};
use crate::runner::{GjkRunner, ToiRunner};
use crate::scalar::UNIT;
use crate::shapes::{Capsule, Circle, Transformation, AABB};

verus! {

impl Body {
    /// The kind of the shape.
    pub open spec fn kind(self) -> Type {
        match self {
            Body::Circle(_, _) => Type::Circle,
            Body::AABB(_, _) => Type::AABB,
            Body::Capsule(_, _) => Type::Capsule,
            Body::Poly(_, _) => Type::Poly,
        }
    }
}

/// A shape of one of the four kinds, with or without a transformation.
pub trait Shape: Sized {
    /// The kind of shape that the type holds.
    spec fn kind() -> Type;

    /// The shape and its transformation, as one value.
    spec fn body(&self) -> Body;

    /// The kind of shape that the type holds.
    fn shape_type() -> (t: Type)
        ensures
            t == Self::kind(),
    ;

    /// The shape and its transformation, as one value.
    fn shape(&self) -> (b: Body)
        ensures
            b == self.body(),
            b.kind() == Self::kind(),
    ;

    /// The transformation that places the shape in the world, if it has one.
    fn transformation(&self) -> (x: Option<Transformation>)
        ensures
            x == self.body().transformation(),
    ;
}

/// The queries that answer whether and how two shapes collide.
pub trait BasicShape: Shape {
    /// Returns true if the two shapes are colliding, false otherwise
    fn collides_with<T: Shape>(&self, other: &T) -> (res: bool)
        requires
            self.body().wf(),
            other.body().wf(),
        ensures
            res == meets(self.body().figure(), other.body().figure()),
    {
        let a = self.shape();
        let b = other.shape();
        collides(&a, &b)
    }

    /// Returns the Manifold struct for collision resolution
    fn manifold<T: Shape>(&self, other: &T) -> (m: Manifold)
        requires
            self.body().wf(),
            other.body().wf(),
        ensures
            m@ == touch(self.body().figure(), other.body().figure()),
            m.count > 0 <==> meets(self.body().figure(), other.body().figure()),
            0 <= m.count <= 2,
            m.n@.bounded(UNIT as int),
    {
        let a = self.shape();
        let b = other.shape();
        manifold(&a, &b)
    }
}

/// The queries for the distance and the time of impact of two shapes.
pub trait AdvancedShape: Shape {
    /// A query for the distance of this shape and another.
    fn gjk<'a, T: Shape>(&'a self, other: &'a T) -> (r: GjkRunner<'a, Self, T>)
        ensures
            r.a == self,
            r.b == other,
            r.use_radius,
            r.cache is None,
            r.iterations is None,
    {
        GjkRunner::new(self, other)
    }

    /// A query for the time of impact of this shape and another.
    fn time_of_impact<'a, T: Shape>(&'a self, other: &'a T) -> (r: ToiRunner<'a, Self, T>)
        ensures
            r.a == self,
            r.b == other,
            r.a_velocity == (crate::vec2::Vec2 { x: 0, y: 0 }),
            r.b_velocity == (crate::vec2::Vec2 { x: 0, y: 0 }),
            r.use_radius,
            r.iterations is None,
    {
        ToiRunner::new(self, other)
    }
}

impl Ray {
    /// Where the ray enters a shape: the distance along the ray and the
    /// normal of the surface there, or nothing where the ray misses the
    /// shape, ends before it, or starts inside it.
    pub fn cast<T: Shape + AdvancedShape>(self, shape: T) -> (res: Option<RayCast>)
        requires
            self.wf(),
            shape.body().wf(),
        ensures
            seen(res) == ray_hit(self.p@, self.d@, self.t as int, shape.body().figure()),
            res matches Some(h) ==> h.wf(),
    {
        let b = shape.shape();
        raycast(&self, &b)
    }
}

impl Shape for Circle {
    open spec fn kind() -> Type {
        Type::Circle
    }

    open spec fn body(&self) -> Body {
        Body::Circle(*self, None)
    }

    fn shape_type() -> (t: Type) {
        Type::Circle
    }

    fn shape(&self) -> (b: Body) {
        Body::Circle(*self, None)
    }

    fn transformation(&self) -> (x: Option<Transformation>) {
        None
    }
}

impl BasicShape for Circle {

}

impl Shape for AABB {
    open spec fn kind() -> Type {
        Type::AABB
    }

    open spec fn body(&self) -> Body {
        Body::AABB(*self, None)
    }

    fn shape_type() -> (t: Type) {
        Type::AABB
    }

    fn shape(&self) -> (b: Body) {
        Body::AABB(*self, None)
    }

    fn transformation(&self) -> (x: Option<Transformation>) {
        None
    }
}

impl BasicShape for AABB {

}

impl Shape for Capsule {
    open spec fn kind() -> Type {
        Type::Capsule
    }

    open spec fn body(&self) -> Body {
        Body::Capsule(*self, None)
    }

    fn shape_type() -> (t: Type) {
        Type::Capsule
    }

    fn shape(&self) -> (b: Body) {
        Body::Capsule(*self, None)
    }

    fn transformation(&self) -> (x: Option<Transformation>) {
        None
    }
}

impl BasicShape for Capsule {

}

impl Shape for Poly {
    open spec fn kind() -> Type {
        Type::Poly
    }

    open spec fn body(&self) -> Body {
        Body::Poly(*self, None)
    }

    fn shape_type() -> (t: Type) {
        Type::Poly
    }

    fn shape(&self) -> (b: Body) {
        Body::Poly(*self, None)
    }

    fn transformation(&self) -> (x: Option<Transformation>) {
        None
    }
}

impl BasicShape for Poly {

}

impl Shape for (Circle, Transformation) {
    open spec fn kind() -> Type {
        Type::Circle
    }

    open spec fn body(&self) -> Body {
        Body::Circle(self.0, Some(self.1))
    }

    fn shape_type() -> (t: Type) {
        Type::Circle
    }

    fn shape(&self) -> (b: Body) {
        Body::Circle(self.0, Some(self.1))
    }

    fn transformation(&self) -> (x: Option<Transformation>) {
        Some(self.1)
    }
}

impl Shape for (AABB, Transformation) {
    open spec fn kind() -> Type {
        Type::AABB
    }

    open spec fn body(&self) -> Body {
        Body::AABB(self.0, Some(self.1))
    }

    fn shape_type() -> (t: Type) {
        Type::AABB
    }

    fn shape(&self) -> (b: Body) {
        Body::AABB(self.0, Some(self.1))
    }

    fn transformation(&self) -> (x: Option<Transformation>) {
        Some(self.1)
    }
}

impl Shape for (Capsule, Transformation) {
    open spec fn kind() -> Type {
        Type::Capsule
    }

    open spec fn body(&self) -> Body {
        Body::Capsule(self.0, Some(self.1))
    }

    fn shape_type() -> (t: Type) {
        Type::Capsule
    }

    fn shape(&self) -> (b: Body) {
        Body::Capsule(self.0, Some(self.1))
    }

    fn transformation(&self) -> (x: Option<Transformation>) {
        Some(self.1)
    }
}

impl Shape for (Poly, Transformation) {
    open spec fn kind() -> Type {
        Type::Poly
    }

    open spec fn body(&self) -> Body {
        Body::Poly(self.0, Some(self.1))
    }

    fn shape_type() -> (t: Type) {
        Type::Poly
    }

    fn shape(&self) -> (b: Body) {
        Body::Poly(self.0, Some(self.1))
    }

    fn transformation(&self) -> (x: Option<Transformation>) {
        Some(self.1)
    }
}

impl BasicShape for (Poly, Transformation) {

}

impl AdvancedShape for Circle {

}

impl AdvancedShape for AABB {

}

impl AdvancedShape for Capsule {

}

impl AdvancedShape for Poly {

}

impl AdvancedShape for (Circle, Transformation) {

}

impl AdvancedShape for (AABB, Transformation) {

}

impl AdvancedShape for (Capsule, Transformation) {

}

impl AdvancedShape for (Poly, Transformation) {

}

} // verus!
