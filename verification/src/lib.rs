//! Collision detection for convex polygons on an integer grid.
//!
//! A polygon is a loop of grid points in the frame of the object that it
//! describes; a transform places it in the world. The query
//! [`collider::are_colliding`] tells whether two placed polygons overlap, and
//! if so along which edge normal they overlap the least and by how much: the
//! minimum translation vector. [`collider::correction`] turns that answer
//! into the grid displacement that parts the two.
//!
//! All arithmetic is exact integer arithmetic. Coordinates are `i64` grid
//! units; a host chooses how many grid units make one of its own units.
//! Local coordinates reach to 2^26, translations to 2^28 and the world to
//! 2^29 in every direction, which keeps every intermediate value of the
//! query in range.
//!
//! The contracts speak of the model in [`model`]. What is proved of the
//! query for all shapes stands in [`laws`], [`separation`] and
//! [`rectangles`].

pub mod collider;
pub mod laws;
pub mod lemmas;
pub mod model;
pub mod plane;
pub mod rectangles;
pub mod separation;
pub mod transform;
pub mod util;
pub mod vector;
