//! Numbers, vectors and surface materials.
pub mod algebra;
pub mod fixed;
pub mod material;
pub mod vec3;
