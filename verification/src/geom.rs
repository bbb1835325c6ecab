//! The plain value types that every rasterizer works on: integer pixel
//! coordinates and four-channel colours.

use vstd::prelude::*;

verus! {

/// A canvas-space pixel coordinate: origin at the top left corner, x
/// growing rightward and y growing downward. Also used for a canvas size
/// (x = width, y = height) and a rectangle extent.
#[derive(Clone, Copy, PartialEq, Eq, Structural, Debug)]
pub struct Point {
    pub x: i32,
    pub y: i32,
}

impl Point {
    pub fn new(x: i32, y: i32) -> (p: Point)
        ensures
            p.x == x,
            p.y == y,
    {
        Point { x, y }
    }
}

/// A colour with four 8-bit channels. The channels are written to the
/// pixel buffer at consecutive offsets in the order r, g, b, a.
#[derive(Clone, Copy, PartialEq, Eq, Structural, Debug)]
pub struct Color {
    pub r: u8,
    pub g: u8,
    pub b: u8,
    pub a: u8,
}

impl Color {
    pub fn new(r: u8, g: u8, b: u8, a: u8) -> (c: Color)
        ensures
            c.r == r,
            c.g == g,
            c.b == b,
            c.a == a,
    {
        Color { r, g, b, a }
    }

    /// Unpacks a 32-bit colour value: r is bits 31..24, g is bits 23..16,
    /// b is bits 15..8 and a is bits 7..0.
    pub fn from_u32(packed: u32) -> (c: Color)
        ensures
            c.r as u32 == (packed >> 24) & 0xff,
            c.g as u32 == (packed >> 16) & 0xff,
            c.b as u32 == (packed >> 8) & 0xff,
            c.a as u32 == packed & 0xff,
    {
        let r = ((packed >> 24) & 0xff) as u8;
        let g = ((packed >> 16) & 0xff) as u8;
        let b = ((packed >> 8) & 0xff) as u8;
        let a = (packed & 0xff) as u8;
        assert(((packed >> 24) & 0xff) < 256 && ((packed >> 16) & 0xff) < 256
            && ((packed >> 8) & 0xff) < 256 && (packed & 0xff) < 256) by (bit_vector);
        Color { r, g, b, a }
    }
}

} // verus!
