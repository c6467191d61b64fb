//! Rendering core of a small 2D game: a rectangle bin packer, a glyph atlas
//! built on it, and a batched immediate-mode renderer that decides, frame by
//! frame, how vertex and index data reach the GPU.

pub mod atlas;
pub mod batch;
pub mod layout;
pub mod packer;
pub mod shader;
pub mod tex;
pub mod vec2;
