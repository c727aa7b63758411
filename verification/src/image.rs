//! The scene, the shader and the renderer.
pub mod api;
pub mod normals;
pub mod optics;
pub mod sphere;
