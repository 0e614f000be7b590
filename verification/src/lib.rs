//! A path-tracing core over exact integer arithmetic.
//!
//! Scene geometry (sphere, quad, triangle, translation, rotation about the
//! y axis) lives on an integer coordinate grid; the ray parameter `t`,
//! surface coordinates, colors and unit vectors are fixed-point numbers
//! with scale [`FP`]. Every intersection routine is a deterministic
//! function of its inputs, computed with exact `i128` arithmetic and floor
//! rounding, and is specified by a ghost mirror of the same computation.
//! On top of that sit the bounding-volume hierarchy and the recursive
//! radiance estimator, with proofs that the hierarchy returns the same
//! nearest hit as a linear scan of the scene.
#![allow(unused_imports)]

pub mod math;
pub mod vec3;
pub mod interval;
pub mod aabb;
pub mod ray;
pub mod hittable;
pub mod sphere;
pub mod quad;
pub mod triangle;
pub mod list;
pub mod bvh;
pub mod laws;
pub mod image;
pub mod texture;
pub mod color;
pub mod rng;
pub mod material;
pub mod camera;
pub mod mesh;
