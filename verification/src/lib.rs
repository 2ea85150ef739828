//! Delaunay triangulation of points on an integer grid by a sweep that
//! inserts points in order of their distance from a chosen center.
//!
//! Coordinates are integers, so every geometric predicate is evaluated
//! exactly and the structural and geometric invariants of the triangulation
//! are established by proof rather than by runtime assertion.
pub mod algebra;
pub mod angle;
pub mod consistency;
pub mod half;
pub mod hull;
pub mod laws;
pub mod mesh;
pub mod order;
pub mod predicates;
pub mod seed;
pub mod triangulate;
