//! The traits that bring the collision queries to the shapes.

pub use crate::shape::{AdvancedShape, BasicShape, Shape};
