//! A path tracer over spheres: closest-hit search, material scattering and
//! the recursive colour estimate, on fixed-point arithmetic.
pub mod fixed;
pub mod vec3;
pub mod ray;
pub mod sampling;
pub mod material;
pub mod hittable;
pub mod render;
pub mod camera;
pub mod screen;
