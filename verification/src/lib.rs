//! A small ray caster over analytic primitives (spheres and planes),
//! written in fixed-point integer arithmetic so that every step of the
//! scene-intersection and shading pipeline carries a proved contract.
//!
//! Coordinates, colors and distances are `i64` values in units of
//! 1/1000 (`SCALE`): the point (0, 0, -1.5) is written (0, 0, -1500).

pub mod math;
pub mod vec3;
pub mod ray;
pub mod hittable;
pub mod sampling;
pub mod world;
