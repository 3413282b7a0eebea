//! A single grid cell: a color that draw strokes overwrite in place.

use vstd::prelude::*;
use crate::geometry::{Color, DrawCmd, spec_white};

verus! {

/// One cell of the grid. Cells are created white, recolored by strokes,
/// and reset to white by a clear; the pool of cells itself is never resized.
#[derive(Clone, Copy, PartialEq, Eq, Structural, Debug)]
pub struct Pixel {
    pub color: Color,
}

impl Pixel {
    pub fn new() -> (p: Pixel)
        ensures
            p.color == spec_white(),
    {
        Pixel { color: Color::white() }
    }

    /// The render description of this cell: a filled rectangle at the given
    /// screen position and size, in this cell's color.
    pub fn draw(&self, x: i64, y: i64, w: i64, h: i64) -> (d: DrawCmd)
        ensures
            d == (DrawCmd::FillRect { x, y, w, h, color: self.color }),
    {
        DrawCmd::FillRect { x, y, w, h, color: self.color }
    }

    pub fn fix_color(&mut self, color: Color)
        ensures
            final(self).color == color,
    {
        self.color = color;
    }
}

} // verus!
