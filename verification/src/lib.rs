//! Bridges a flat, parent-indexed physics model and a hierarchical scene graph:
//! the kinematic forest of the body table, the choice of each body's renderable
//! geometry, and the move from the simulation's axis convention to the renderer's.
//!
//! Coordinates are generic. The library moves and reorders components, and where
//! it has to negate, halve, double or compare them it does so through the
//! operators of the scalar type, so that what it says of a result holds for every
//! scalar type that keeps to its own specification.

pub mod census;
pub mod extract;
pub mod frame;
pub mod geometry;
pub mod model;
pub mod mujoco_shape;
pub mod stepping;
pub mod sync;
pub mod tree;
