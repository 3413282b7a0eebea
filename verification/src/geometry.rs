//! Plain-value geometry and color types for the canvas.
//!
//! Screen space is measured in whole pixels: a point is a pair of `i32`
//! coordinates, a color is four `u8` channels. The UI host converts its own
//! representation to and from these values at the boundary.

use vstd::prelude::*;

verus! {

/// A screen-space point in whole-pixel coordinates.
#[derive(Clone, Copy, PartialEq, Eq, Structural, Debug)]
pub struct Pos {
    pub x: i32,
    pub y: i32,
}

impl Pos {
    pub fn new(x: i32, y: i32) -> (p: Pos)
        ensures
            p == (Pos { x, y }),
    {
        Pos { x, y }
    }
}

/// An RGBA color value.
#[derive(Clone, Copy, PartialEq, Eq, Structural, Debug)]
pub struct Color {
    pub r: u8,
    pub g: u8,
    pub b: u8,
    pub a: u8,
}

/// The background color of a freshly created or cleared cell.
pub open spec fn spec_white() -> Color {
    Color { r: 255, g: 255, b: 255, a: 255 }
}

/// The default primary draw color.
pub open spec fn spec_black() -> Color {
    Color { r: 0, g: 0, b: 0, a: 255 }
}

/// The default grid-line color.
pub open spec fn spec_blue() -> Color {
    Color { r: 0, g: 0, b: 255, a: 255 }
}

impl Color {
    pub fn new(r: u8, g: u8, b: u8, a: u8) -> (c: Color)
        ensures
            c == (Color { r, g, b, a }),
    {
        Color { r, g, b, a }
    }

    pub fn white() -> (c: Color)
        ensures
            c == spec_white(),
    {
        Color { r: 255, g: 255, b: 255, a: 255 }
    }

    pub fn black() -> (c: Color)
        ensures
            c == spec_black(),
    {
        Color { r: 0, g: 0, b: 0, a: 255 }
    }

    pub fn blue() -> (c: Color)
        ensures
            c == spec_blue(),
    {
        Color { r: 0, g: 0, b: 255, a: 255 }
    }
}

/// The style of the grid's separator lines: a line width in whole pixels
/// and a color.
#[derive(Clone, Copy, PartialEq, Eq, Structural, Debug)]
pub struct Stroke {
    pub width: u32,
    pub color: Color,
}

impl Stroke {
    pub fn new(width: u32, color: Color) -> (s: Stroke)
        ensures
            s == (Stroke { width, color }),
    {
        Stroke { width, color }
    }
}

/// One element of the canvas's render description: either a filled cell
/// rectangle or a grid separator line. Coordinates are widened to `i64`
/// because a far-panned anchor plus a grid extent can leave `i32`.
#[derive(Clone, Copy, PartialEq, Eq, Structural, Debug)]
pub enum DrawCmd {
    FillRect { x: i64, y: i64, w: i64, h: i64, color: Color },
    LineSeg { x0: i64, y0: i64, x1: i64, y1: i64, stroke: Stroke },
}

} // verus!
