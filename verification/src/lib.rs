//! A bounding-volume hierarchy for ray queries over a scene of bounded objects.
//!
//! All geometry lives on an integer lattice so that every comparison the
//! hierarchy makes is exact: points have `i32` coordinates, displacements have
//! `i64` components, areas and volumes are `i128`, and ray parameters are
//! fixed-point numbers counted in units of `1 / PARAM_SCALE`.

pub mod common;
pub mod math;
pub mod geometry;
pub mod medium;
pub mod interaction;
pub mod shape;
pub mod sampler;
