//! A software framebuffer: packed colours and their alpha blend, decoded
//! images, an anti-aliased line rasterizer, and a buffer that images, lines
//! and glyphs are drawn into and that a display presents at a paced rate.

pub mod rgba;
pub mod xiaolin_wu;
pub mod img;
pub mod fb;
