//! Planar Euclidean geometry over exact rational coordinates: points, lines
//! and circles, with constructions, intersections, transforms and triangle
//! centers whose results are proved against their algebraic definitions.
pub mod arith;
pub mod basic;
pub mod centers;
pub mod construct;
pub mod exception;
pub mod objects;
pub mod transform;
