//! An offline path-tracing renderer core over exact fixed-point arithmetic:
//! geometric primitives, a bounding-volume hierarchy, material scattering and
//! the iterative path integrator, each with a verified contract.  Scalars are
//! integers counting fraction units of size `1 / fixed::SCALE`, so every
//! contract states the computed value exactly, floors included.

pub mod aabb;
pub mod bvh;
pub mod fixed;
pub mod hit;
pub mod hittable;
pub mod integrator;
pub mod laws;
pub mod material;
pub mod ray;
pub mod rng;
pub mod scene;
pub mod texture;
pub mod vec3;
