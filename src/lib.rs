//! The painter core of an egui-on-skia backend: a texture cache patched by
//! partial image updates, and the planning of egui's clipped primitives into
//! 16-bit mesh draws, with the glyph-origin sampling workaround.
pub mod image;
pub mod mesh;
pub mod painter;
pub mod texture;
