//! Narrow-phase collision detection for circles, boxes, capsules and convex
//! polygons in the plane, in exact integer arithmetic.

pub mod scalar;
pub mod algebra;
pub mod vec2;
pub mod shapes;
pub mod angle;
pub mod poly;
pub mod convex;
pub mod model;
pub mod collide;
pub mod manifold;
pub mod ray;
pub mod gjk;
pub mod toi;
pub mod shape;
pub mod runner;
pub mod laws;
pub mod prelude;

pub use crate::collide::{Body, Solid, Type};
pub use crate::gjk::{GjkCache, GjkResponse};
pub use crate::manifold::Manifold;
pub use crate::runner::{GjkRunner, ToiRunner};
pub use crate::toi::Toi;
pub use crate::poly::Poly;
pub use crate::ray::{Ray, RayCast};
pub use crate::shapes::{Capsule, Circle, Rotation, ShapeError, Transformation, AABB};
pub use crate::vec2::Vec2;
