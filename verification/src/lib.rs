//! Core of a CPU path tracer: fixed-point geometry, ray-primitive
//! intersection, a bounding-volume hierarchy, scattering materials, a thin
//! camera model and an iterative Monte Carlo integrator.

pub mod fixed;
pub mod vec3;
pub mod geom;
pub mod shape;
pub mod util;
pub mod material;
pub mod prims;
pub mod aggregate;
pub mod integrator;
pub mod camera;
pub mod framebuf;
pub mod metrics;
pub mod scene;
