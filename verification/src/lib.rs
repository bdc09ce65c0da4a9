//! Hexagonal soft-body meshes: painting a region on a bitmap, and turning the
//! painted region into a mesh of shared hexagon corners joined by tethers.

pub mod bitmap;
pub mod paint;
pub mod grid;
pub mod mesh;
pub mod corners;
pub mod tethers;
pub mod lattice;
pub mod mode;
