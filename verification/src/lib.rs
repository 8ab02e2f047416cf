//! The deciding half of a Monte Carlo path tracer.
//!
//! Numbers are IEEE 754 binary32 values held by their bit patterns. This
//! crate compares, selects and orders them; it never adds or multiplies
//! them. Shapes, materials and textures that need arithmetic are supplied by
//! the caller through the traits `Hittable`, `Material` and `Texture`.

pub mod scalar;
pub mod vec3;
pub mod vec2;
pub mod ray;
pub mod aabb;
pub mod hittable;
pub mod hittable_list;
pub mod permutation;
pub mod random;
pub mod bvh_node;
pub mod textures;
pub mod materials;
pub mod raytracer;
pub mod perlin;
