//! A software rasterizer: routines that paint geometric primitives (line
//! segments, circle outlines, filled discs, axis-aligned rectangles, filled
//! triangles, and cubic B-spline curves) onto a caller-supplied flat RGBA8
//! pixel buffer.
//!
//! Every drawing routine is bounds-checked per pixel: a write lands in the
//! buffer only when the target coordinate lies inside the canvas and the
//! four-byte span fits inside the buffer; everything else is silently
//! skipped. Each routine's contract states the exact set of pixels it
//! paints.

pub mod canvas;
pub mod circle;
pub mod geom;
pub mod line;
pub mod rect;
pub mod score;
pub mod spline;
pub mod triangle;
