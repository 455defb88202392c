//! A small path tracer over fixed-point arithmetic.
//!
//! Scalars are signed integers carrying `SCALE` units per world unit, so
//! every geometric computation is exact integer arithmetic with explicit
//! truncating division, and each function's contract pins its result down.

pub mod camera;
pub mod fixed;
pub mod ray;
pub mod render;
pub mod rng;
pub mod sphere;
pub mod utils;
pub mod vec3;
