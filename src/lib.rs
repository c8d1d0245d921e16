//! A small fixed-point ray tracer: ray/primitive intersection, nearest-hit
//! scene traversal and direct illumination with shadow rays.
//!
//! Every coordinate, distance, colour and coefficient is a fixed-point integer
//! (`fixed::UNIT` stands for 1.0), so the geometry is exact integer arithmetic
//! and each rounding step is part of a function's contract.
pub mod fixed;
pub mod light;
pub mod material;
pub mod plane;
pub mod scene;
pub mod shape;
pub mod sphere;
pub mod vector;

pub use crate::fixed::UNIT;
pub use crate::light::{Light, PointLight, SphereLight};
pub use crate::material::{Color, Material};
pub use crate::plane::Plane;
pub use crate::scene::Scene;
pub use crate::shape::{GeometryError, Intersection, Shape};
pub use crate::sphere::Sphere;
pub use crate::vector::Vec3;
