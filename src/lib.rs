//! A Monte Carlo path tracer over spheres, computed in saturating
//! fixed-point arithmetic so that every step is verified free of overflow.
pub mod fixed;
pub mod vec3;
pub mod ray;
pub mod random;
pub mod material;
pub mod hittable;
pub mod camera;
pub mod render;
