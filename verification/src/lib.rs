//! A small software rasterizer: lines and triangles (flat and colour-gradient)
//! drawn into packed RGBA pixel buffers.

pub mod color;
pub mod pixels;
pub mod image_buffer;
pub mod order;
pub mod triangle;
pub mod line;
pub mod picture;
pub mod renderer;
pub mod laws;
