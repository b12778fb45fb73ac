//! A small ray tracer on exact fixed-point arithmetic: rays, spheres, a scene that
//! resolves the nearest hit, and a camera that samples, shades and writes an image.

pub mod fixed;
pub mod vec3;
pub mod interval;
pub mod ray;
pub mod hittable;
pub mod camera;
pub mod color;
