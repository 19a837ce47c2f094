//! A CPU software rasterizer: 2D primitives rendered into 32-bit RGBA pixel
//! buffers, with Cohen–Sutherland line clipping, Bresenham traversal,
//! scan-converted triangles and circles, supersampled antialiasing,
//! source-over blending, sub-canvas views, bitmap-font text, and a binary
//! PPM serializer.

pub mod bary;
pub mod canvas;
pub mod circle;
pub mod clip;
pub mod color;
pub mod font;
pub mod ray;
pub mod ppm;
pub mod renderer;
