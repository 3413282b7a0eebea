//! The canvas: a fixed-capacity grid of cells with screen geometry, the
//! draw/pan sub-mode, and the event handler that drives the interaction
//! state machine.
//!
//! The cell pool is a flat row-major arena sized to the full capacity
//! `max_line * max_col`; a sub-rectangle of `line` rows and `col` columns is
//! currently visible. Resizing the visible extent never touches cell
//! contents, so cells that leave the extent keep their color and show it
//! again if the extent grows back.

use vstd::prelude::*;
use vstd::arithmetic::div_mod::{
    lemma_fundamental_div_mod, lemma_mod_division_less_than_divisor,
};
use vstd::arithmetic::mul::lemma_mul_nonnegative;
use vstd::pervasive::VecAdditionalExecFns;
use crate::geometry::{Color, DrawCmd, Pos, Stroke, spec_black, spec_blue, spec_white};
use crate::pixel::Pixel;
use crate::raster;
use crate::state::State;

verus! {

/// The user-selected sub-mode: a drag either draws on cells or pans the
/// whole grid. It persists across idle/drag transitions.
#[derive(Clone, Copy, PartialEq, Eq, Structural, Debug)]
pub enum StateCanvas {
    Drag,
    Draw,
}

impl Default for StateCanvas {
    fn default() -> (s: StateCanvas)
        ensures
            s == StateCanvas::Draw,
    {
        StateCanvas::Draw
    }
}

/// An input event, carrying positions in the same screen space as the
/// grid anchor. Events the state machine ignores arrive as `Other`.
#[derive(Clone, Copy, PartialEq, Eq, Structural, Debug)]
pub enum Event {
    PointerButton { pos: Pos, primary: bool, pressed: bool },
    PointerMoved(Pos),
    Other,
}

/// Clamp a mathematical integer into the `i32` range, for panning that may
/// run off the representable screen.
pub open spec fn clip_i32(v: int) -> int {
    if v < i32::MIN as int {
        i32::MIN as int
    } else if v > i32::MAX as int {
        i32::MAX as int
    } else {
        v
    }
}

/// Clamp `v` into `[lo, hi]`.
pub open spec fn spec_clamp(v: int, lo: int, hi: int) -> int {
    if v < lo {
        lo
    } else if v > hi {
        hi
    } else {
        v
    }
}

/// A negative offset divides to a negative cell index, so a point left of
/// or above the anchor never lands in the visible extent.
proof fn lemma_neg_div_is_neg(x: int, d: int)
    requires
        x < 0,
        d >= 1,
    ensures
        x / d < 0,
{
    lemma_fundamental_div_mod(x, d);
    lemma_mod_division_less_than_divisor(x, d);
    if x / d >= 0 {
        lemma_mul_nonnegative(d, x / d);
        assert(false);
    }
}

/// The cell of a row-major pool with `max_col` columns at row `r`,
/// column `c`.
pub open spec fn cell_at(px: Seq<Pixel>, max_col: int, r: int, c: int) -> Pixel {
    px[r * max_col + c]
}

/// The drawing surface and its interaction configuration.
#[derive(Debug)]
pub struct Canvas {
    /// Screen position of the grid's top-left corner.
    pub pos: Pos,
    /// Draw or pan sub-mode.
    pub state: StateCanvas,
    /// Style of the grid separator lines.
    pub stroke: Stroke,
    /// Width of one cell in screen pixels.
    pub width_pixel: i32,
    /// Height of one cell in screen pixels.
    pub height_pixel: i32,
    /// Allocated rows; fixed at construction.
    pub max_line: usize,
    /// Allocated columns; fixed at construction.
    pub max_col: usize,
    /// Visible rows, at most `max_line`.
    pub line: usize,
    /// Visible columns, at most `max_col`.
    pub col: usize,
    /// The cell pool, row-major: cell `(r, c)` is at `r * max_col + c`.
    pub pixels: Vec<Pixel>,
    /// Color a secondary-button stroke would use; configuration only.
    pub color_pick_right_click: Color,
    /// Color a primary-button stroke paints with.
    pub color_pick_left_click: Color,
}

impl Canvas {
    /// Well-formedness: the visible extent is non-empty and within
    /// capacity, cell sizes are positive, and all dimensions are small
    /// enough that every coordinate computation fits in 64 bits.
    pub open spec fn wf(&self) -> bool {
        &&& 1 <= self.line <= self.max_line
        &&& 1 <= self.col <= self.max_col
        &&& self.max_line <= 0x8000
        &&& self.max_col <= 0x8000
        &&& 1 <= self.width_pixel <= 0x10000
        &&& 1 <= self.height_pixel <= 0x10000
        &&& self.pixels.len() == self.max_line * self.max_col
    }

    /// The point `(x, y)` lies in the visible grid rectangle: within it
    /// horizontally by `[anchor.x, anchor.x + cell_width * visible_cols)`
    /// and the analogous vertical interval.
    pub open spec fn spec_contains(&self, x: int, y: int) -> bool {
        &&& self.pos.x <= x < self.pos.x + self.width_pixel * self.col
        &&& self.pos.y <= y < self.pos.y + self.height_pixel * self.line
    }

    /// The grid row of a screen point: its vertical offset from the anchor,
    /// floor-divided by the cell height.
    pub open spec fn spec_cell_row(&self, y: int) -> int {
        (y - self.pos.y) / (self.height_pixel as int)
    }

    /// The grid column of a screen point.
    pub open spec fn spec_cell_col(&self, x: int) -> int {
        (x - self.pos.x) / (self.width_pixel as int)
    }

    /// Screen point to cell indices, if the point falls in the visible
    /// extent.
    pub open spec fn spec_to_cell(&self, x: int, y: int) -> Option<(int, int)> {
        let row = self.spec_cell_row(y);
        let col = self.spec_cell_col(x);
        if 0 <= row < self.line && 0 <= col < self.col {
            Some((row, col))
        } else {
            None
        }
    }

    /// The cells a straight stroke between two screen points touches, as
    /// `(row, col)` pairs in walk order.
    pub open spec fn spec_trace_on(&self, p0: Pos, p1: Pos) -> Seq<(int, int)> {
        raster::spec_trace(
            p0.x - self.pos.x,
            p0.y - self.pos.y,
            p1.x - self.pos.x,
            p1.y - self.pos.y,
            self.width_pixel as int,
            self.height_pixel as int,
        )
    }

    /// Construct a canvas with the given capacity, grid-line stroke and
    /// anchor. The visible extent starts at half the capacity (at least one
    /// row and column), cells are 10 by 10 screen pixels, every cell is
    /// white, and the primary and secondary colors are black and white.
    pub fn new(max_line: usize, max_col: usize, stroke: Stroke, pos: Pos) -> (c: Canvas)
        requires
            1 <= max_line <= 0x8000,
            1 <= max_col <= 0x8000,
        ensures
            c.wf(),
            c.pos == pos,
            c.state == StateCanvas::Draw,
            c.stroke == stroke,
            c.width_pixel == 10,
            c.height_pixel == 10,
            c.max_line == max_line,
            c.max_col == max_col,
            c.line as int == if max_line >= 2 { max_line as int / 2 } else { 1int },
            c.col as int == if max_col >= 2 { max_col as int / 2 } else { 1int },
            c.pixels@.len() == max_line * max_col,
            forall|k: int| 0 <= k < c.pixels@.len() ==> c.pixels@[k].color == spec_white(),
            c.color_pick_left_click == spec_black(),
            c.color_pick_right_click == spec_white(),
    {
        proof {
            assert(max_line * max_col <= 0x8000 * 0x8000) by (nonlinear_arith)
                requires
                    1 <= max_line <= 0x8000,
                    1 <= max_col <= 0x8000,
            ;
        }
        let n = max_line * max_col;
        let mut pixels: Vec<Pixel> = Vec::new();
        let mut k: usize = 0;
        while k < n
            invariant
                k <= n,
                pixels@.len() == k,
                forall|i: int| 0 <= i < k ==> pixels@[i].color == spec_white(),
            decreases n - k,
        {
            pixels.push(Pixel::new());
            k = k + 1;
        }
        let line = if max_line >= 2 {
            max_line / 2
        } else {
            1
        };
        let col = if max_col >= 2 {
            max_col / 2
        } else {
            1
        };
        Canvas {
            pos,
            state: StateCanvas::Draw,
            stroke,
            width_pixel: 10,
            height_pixel: 10,
            max_line,
            max_col,
            line,
            col,
            pixels,
            color_pick_left_click: Color::black(),
            color_pick_right_click: Color::white(),
        }
    }

    /// Whether a screen point lies in the visible grid rectangle. All
    /// pointer interaction is gated on this.
    pub fn contains(&self, pos: Pos) -> (r: bool)
        requires
            self.wf(),
        ensures
            r == self.spec_contains(pos.x as int, pos.y as int),
    {
        proof {
            assert(self.width_pixel * self.col <= 0x10000 * 0x10000) by (nonlinear_arith)
                requires
                    0 <= self.width_pixel <= 0x10000,
                    0 <= self.col <= 0x10000,
            ;
            assert(self.height_pixel * self.line <= 0x10000 * 0x10000) by (nonlinear_arith)
                requires
                    0 <= self.height_pixel <= 0x10000,
                    0 <= self.line <= 0x10000,
            ;
        }
        let w = (self.width_pixel as i64) * (self.col as i64);
        let h = (self.height_pixel as i64) * (self.line as i64);
        let px = pos.x as i64;
        let py = pos.y as i64;
        let ax = self.pos.x as i64;
        let ay = self.pos.y as i64;
        ax <= px && px < ax + w && ay <= py && py < ay + h
    }

    /// Screen point to zero-based `(row, col)` cell indices, or `None` for
    /// a point outside the visible extent.
    pub fn to_cell(&self, pos: Pos) -> (r: Option<(usize, usize)>)
        requires
            self.wf(),
        ensures
            match r {
                Some(rc) => self.spec_to_cell(pos.x as int, pos.y as int) == Some(
                    (rc.0 as int, rc.1 as int),
                ),
                None => self.spec_to_cell(pos.x as int, pos.y as int) is None,
            },
    {
        let dx = pos.x as i64 - self.pos.x as i64;
        let dy = pos.y as i64 - self.pos.y as i64;
        if dx < 0 || dy < 0 {
            proof {
                if dx < 0 {
                    lemma_neg_div_is_neg(dx as int, self.width_pixel as int);
                }
                if dy < 0 {
                    lemma_neg_div_is_neg(dy as int, self.height_pixel as int);
                }
            }
            return None;
        }
        let col = dx / (self.width_pixel as i64);
        let row = dy / (self.height_pixel as i64);
        if row < self.line as i64 && col < self.col as i64 {
            Some((row as usize, col as usize))
        } else {
            None
        }
    }

    /// Recolor one visible cell; out-of-range indices are absorbed as a
    /// no-op rather than an error.
    pub fn set_cell(&mut self, row: usize, col: usize, color: Color)
        requires
            old(self).wf(),
        ensures
            final(self).wf(),
            *final(self) == (Canvas { pixels: final(self).pixels, ..*old(self) }),
            row < old(self).line && col < old(self).col ==> final(self).pixels@ == old(
                self,
            ).pixels@.update(row * old(self).max_col + col, Pixel { color }),
            !(row < old(self).line && col < old(self).col) ==> final(self).pixels@ == old(
                self,
            ).pixels@,
    {
        if row < self.line && col < self.col {
            proof {
                assert(row * self.max_col + col < self.max_line * self.max_col)
                    by (nonlinear_arith)
                    requires
                        row < self.line,
                        col < self.col,
                        self.line <= self.max_line,
                        self.col <= self.max_col,
                        self.max_col >= 1,
                ;
            }
            let idx = row * self.max_col + col;
            self.pixels.set(idx, Pixel { color });
        }
    }

    /// Shift the grid anchor by `(dx, dy)`, clamped at the edge of the
    /// representable screen; the grid may be panned arbitrarily far
    /// off-screen.
    pub fn move_canvas(&mut self, dx: i32, dy: i32)
        ensures
            *final(self) == (Canvas { pos: final(self).pos, ..*old(self) }),
            final(self).pos.x as int == clip_i32(old(self).pos.x + dx),
            final(self).pos.y as int == clip_i32(old(self).pos.y + dy),
    {
        let nx = self.pos.x as i64 + dx as i64;
        let ny = self.pos.y as i64 + dy as i64;
        let cx = if nx < i32::MIN as i64 {
            i32::MIN
        } else if nx > i32::MAX as i64 {
            i32::MAX
        } else {
            nx as i32
        };
        let cy = if ny < i32::MIN as i64 {
            i32::MIN
        } else if ny > i32::MAX as i64 {
            i32::MAX
        } else {
            ny as i32
        };
        self.pos = Pos { x: cx, y: cy };
    }

    /// Adjust the visible extent; requests are clamped to `[1, capacity]`.
    /// Cell contents are untouched: cells that leave the extent keep their
    /// color.
    pub fn resize(&mut self, rows: usize, cols: usize)
        requires
            old(self).wf(),
        ensures
            final(self).wf(),
            *final(self) == (Canvas {
                line: final(self).line,
                col: final(self).col,
                ..*old(self)
            }),
            final(self).line as int == spec_clamp(rows as int, 1, old(self).max_line as int),
            final(self).col as int == spec_clamp(cols as int, 1, old(self).max_col as int),
    {
        self.line = if rows < 1 {
            1
        } else if rows > self.max_line {
            self.max_line
        } else {
            rows
        };
        self.col = if cols < 1 {
            1
        } else if cols > self.max_col {
            self.max_col
        } else {
            cols
        };
    }

    /// Set the per-cell screen size. The caller keeps sizes positive and
    /// bounded, as the construction contract does.
    pub fn set_cell_size(&mut self, width: i32, height: i32)
        requires
            old(self).wf(),
            1 <= width <= 0x10000,
            1 <= height <= 0x10000,
        ensures
            final(self).wf(),
            *final(self) == (Canvas {
                width_pixel: width,
                height_pixel: height,
                ..*old(self)
            }),
    {
        self.width_pixel = width;
        self.height_pixel = height;
    }

    /// Reset every cell of the visible extent to the white background.
    /// Capacity cells outside the visible extent keep their color, and show
    /// it again if the extent is later enlarged.
    pub fn clear(&mut self)
        requires
            old(self).wf(),
        ensures
            final(self).wf(),
            *final(self) == (Canvas { pixels: final(self).pixels, ..*old(self) }),
            final(self).pixels@.len() == old(self).pixels@.len(),
            forall|r: int, c: int|
                0 <= r < old(self).max_line && 0 <= c < old(self).max_col
                    ==> #[trigger] cell_at(final(self).pixels@, old(self).max_col as int, r, c)
                    == (if r < old(self).line && c < old(self).col {
                    Pixel { color: spec_white() }
                } else {
                    cell_at(old(self).pixels@, old(self).max_col as int, r, c)
                }),
    {
        let white = Color::white();
        let mut i: usize = 0;
        while i < self.line
            invariant
                self.wf(),
                *self == (Canvas { pixels: self.pixels, ..*old(self) }),
                i <= self.line,
                self.pixels@.len() == old(self).pixels@.len(),
                forall|r: int, c: int|
                    0 <= r < self.max_line && 0 <= c < self.max_col
                        ==> #[trigger] cell_at(self.pixels@, self.max_col as int, r, c)
                        == (if r < i && c < self.col {
                        Pixel { color: spec_white() }
                    } else {
                        cell_at(old(self).pixels@, self.max_col as int, r, c)
                    }),
                white == spec_white(),
            decreases self.line - i,
        {
            let mut j: usize = 0;
            while j < self.col
                invariant
                    self.wf(),
                    *self == (Canvas { pixels: self.pixels, ..*old(self) }),
                    i < self.line,
                    j <= self.col,
                    self.pixels@.len() == old(self).pixels@.len(),
                    forall|r: int, c: int|
                        0 <= r < self.max_line && 0 <= c < self.max_col
                            ==> #[trigger] cell_at(self.pixels@, self.max_col as int, r, c)
                            == (if (r < i || (r == i && c < j)) && c < self.col {
                            Pixel { color: spec_white() }
                        } else {
                            cell_at(old(self).pixels@, self.max_col as int, r, c)
                        }),
                    white == spec_white(),
                decreases self.col - j,
            {
                let ghost before = self.pixels@;
                self.set_cell(i, j, white);
                proof {
                    assert forall|r: int, c: int|
                        0 <= r < self.max_line && 0 <= c < self.max_col
                        implies #[trigger] cell_at(self.pixels@, self.max_col as int, r, c)
                        == (if (r < i || (r == i && c < j + 1)) && c < self.col {
                        Pixel { color: spec_white() }
                    } else {
                        cell_at(old(self).pixels@, self.max_col as int, r, c)
                    }) by {
                        lemma_flat_index_bound(r, c, self.max_line as int, self.max_col as int);
                        lemma_flat_index_bound(
                            i as int,
                            j as int,
                            self.max_line as int,
                            self.max_col as int,
                        );
                        assert(self.pixels@ == before.update(
                            i * self.max_col + j,
                            Pixel { color: spec_white() },
                        ));
                        assert(cell_at(before, self.max_col as int, r, c) == (if (r < i || (r == i
                            && c < j)) && c < self.col {
                            Pixel { color: spec_white() }
                        } else {
                            cell_at(old(self).pixels@, self.max_col as int, r, c)
                        }));
                        if r * self.max_col + c == i * self.max_col + j {
                            lemma_flat_index_unique(r, c, i as int, j as int, self.max_col as int);
                        }
                    }
                }
                j = j + 1;
            }
            i = i + 1;
        }
    }

    /// Rasterize the straight stroke between two screen points that both
    /// lie in the visible grid rectangle, returning the touched cells as
    /// `(row, col)` pairs in walk order.
    pub fn bresenham(&self, start: Pos, end: Pos) -> (r: Vec<(i32, i32)>)
        requires
            self.wf(),
            self.spec_contains(start.x as int, start.y as int),
            self.spec_contains(end.x as int, end.y as int),
        ensures
            r@.map_values(|c: (i32, i32)| (c.0 as int, c.1 as int)) == self.spec_trace_on(
                start,
                end,
            ),
    {
        let sx0 = start.x as i64 - self.pos.x as i64;
        let sy0 = start.y as i64 - self.pos.y as i64;
        let sx1 = end.x as i64 - self.pos.x as i64;
        let sy1 = end.y as i64 - self.pos.y as i64;
        proof {
            assert(self.width_pixel * self.col <= self.width_pixel * 0x10000)
                by (nonlinear_arith)
                requires
                    1 <= self.width_pixel,
                    0 <= self.col <= 0x10000,
            ;
            assert(self.height_pixel * self.line <= self.height_pixel * 0x10000)
                by (nonlinear_arith)
                requires
                    1 <= self.height_pixel,
                    0 <= self.line <= 0x10000,
            ;
        }
        raster::trace_span(sx0, sy0, sx1, sy1, self.width_pixel as i64, self.height_pixel as i64)
    }

    /// The fill rectangle that renders visible cell `(i, j)`: anchored at
    /// the cell's top-left corner, one cell in size, in the cell's color.
    pub open spec fn spec_cell_rect(&self, i: int, j: int) -> DrawCmd {
        DrawCmd::FillRect {
            x: (self.pos.x + self.width_pixel * j) as i64,
            y: (self.pos.y + self.height_pixel * i) as i64,
            w: self.width_pixel as i64,
            h: self.height_pixel as i64,
            color: cell_at(self.pixels@, self.max_col as int, i, j).color,
        }
    }

    /// The `j`-th vertical separator line, spanning the visible extent.
    pub open spec fn spec_vline(&self, j: int) -> DrawCmd {
        DrawCmd::LineSeg {
            x0: (self.pos.x + self.width_pixel * j) as i64,
            y0: self.pos.y as i64,
            x1: (self.pos.x + self.width_pixel * j) as i64,
            y1: (self.pos.y + self.height_pixel * self.line) as i64,
            stroke: self.stroke,
        }
    }

    /// The `i`-th horizontal separator line, spanning the visible extent.
    pub open spec fn spec_hline(&self, i: int) -> DrawCmd {
        DrawCmd::LineSeg {
            x0: self.pos.x as i64,
            y0: (self.pos.y + self.height_pixel * i) as i64,
            x1: (self.pos.x + self.width_pixel * self.col) as i64,
            y1: (self.pos.y + self.height_pixel * i) as i64,
            stroke: self.stroke,
        }
    }

    /// The read-only render description of the visible extent: one filled
    /// rectangle per cell in row-major order, then the `col + 1` vertical
    /// and `line + 1` horizontal separator lines.
    pub fn draw(&self) -> (r: Vec<DrawCmd>)
        requires
            self.wf(),
        ensures
            r@.len() == self.line * self.col + self.col + self.line + 2,
            forall|n: int|
                0 <= n < self.line * self.col ==> #[trigger] r@[n] == self.spec_cell_rect(
                    n / (self.col as int),
                    n % (self.col as int),
                ),
            forall|n: int|
                self.line * self.col <= n < self.line * self.col + self.col + 1
                    ==> #[trigger] r@[n] == self.spec_vline(n - self.line * self.col),
            forall|n: int|
                self.line * self.col + self.col + 1 <= n < self.line * self.col + self.col
                    + self.line + 2 ==> #[trigger] r@[n] == self.spec_hline(
                    n - (self.line * self.col + self.col + 1),
                ),
    {
        let mut r: Vec<DrawCmd> = Vec::new();
        let mut i: usize = 0;
        while i < self.line
            invariant
                self.wf(),
                i <= self.line,
                r@.len() == i * self.col,
                forall|n: int|
                    0 <= n < r@.len() ==> #[trigger] r@[n] == self.spec_cell_rect(
                        n / (self.col as int),
                        n % (self.col as int),
                    ),
            decreases self.line - i,
        {
            let mut j: usize = 0;
            while j < self.col
                invariant
                    self.wf(),
                    i < self.line,
                    j <= self.col,
                    r@.len() == i * self.col + j,
                    forall|n: int|
                        0 <= n < r@.len() ==> #[trigger] r@[n] == self.spec_cell_rect(
                            n / (self.col as int),
                            n % (self.col as int),
                        ),
                decreases self.col - j,
            {
                proof {
                    lemma_flat_index_bound(
                        i as int,
                        j as int,
                        self.max_line as int,
                        self.max_col as int,
                    );
                    lemma_flat_index_bound(i as int, j as int, self.line as int, self.col as int);
                    assert(self.width_pixel * j <= 0x10000 * 0x10000) by (nonlinear_arith)
                        requires
                            0 <= self.width_pixel <= 0x10000,
                            0 <= j <= 0x10000,
                    ;
                    assert(self.height_pixel * i <= 0x10000 * 0x10000) by (nonlinear_arith)
                        requires
                            0 <= self.height_pixel <= 0x10000,
                            0 <= i <= 0x10000,
                    ;
                    vstd::arithmetic::div_mod::lemma_fundamental_div_mod_converse(
                        i * self.col + j,
                        self.col as int,
                        i as int,
                        j as int,
                    );
                }
                let idx = i * self.max_col + j;
                let x = self.pos.x as i64 + (self.width_pixel as i64) * (j as i64);
                let y = self.pos.y as i64 + (self.height_pixel as i64) * (i as i64);
                let cmd = self.pixels[idx].draw(
                    x,
                    y,
                    self.width_pixel as i64,
                    self.height_pixel as i64,
                );
                r.push(cmd);
                j = j + 1;
            }
            proof {
                assert((i + 1) * self.col == i * self.col + self.col) by (nonlinear_arith);
            }
            i = i + 1;
        }
        proof {
            assert(i * self.col == self.line * self.col);
        }
        let cells_len = r.len();
        let mut j: usize = 0;
        while j <= self.col
            invariant
                self.wf(),
                j <= self.col + 1,
                cells_len == self.line * self.col,
                r@.len() == cells_len + j,
                forall|n: int|
                    0 <= n < cells_len ==> #[trigger] r@[n] == self.spec_cell_rect(
                        n / (self.col as int),
                        n % (self.col as int),
                    ),
                forall|n: int|
                    cells_len <= n < r@.len() ==> #[trigger] r@[n] == self.spec_vline(
                        n - cells_len,
                    ),
            decreases self.col + 1 - j,
        {
            proof {
                assert(self.width_pixel * j <= 0x10000 * 0x10000) by (nonlinear_arith)
                    requires
                        0 <= self.width_pixel <= 0x10000,
                        0 <= j <= 0x10000,
                ;
                assert(self.height_pixel * self.line <= 0x10000 * 0x10000) by (nonlinear_arith)
                    requires
                        0 <= self.height_pixel <= 0x10000,
                        0 <= self.line <= 0x10000,
                ;
            }
            let x = self.pos.x as i64 + (self.width_pixel as i64) * (j as i64);
            let cmd = DrawCmd::LineSeg {
                x0: x,
                y0: self.pos.y as i64,
                x1: x,
                y1: self.pos.y as i64 + (self.height_pixel as i64) * (self.line as i64),
                stroke: self.stroke,
            };
            r.push(cmd);
            j = j + 1;
        }
        let lines_start = r.len();
        let mut i2: usize = 0;
        while i2 <= self.line
            invariant
                self.wf(),
                i2 <= self.line + 1,
                cells_len == self.line * self.col,
                lines_start == cells_len + self.col + 1,
                r@.len() == lines_start + i2,
                forall|n: int|
                    0 <= n < cells_len ==> #[trigger] r@[n] == self.spec_cell_rect(
                        n / (self.col as int),
                        n % (self.col as int),
                    ),
                forall|n: int|
                    cells_len <= n < lines_start ==> #[trigger] r@[n] == self.spec_vline(
                        n - cells_len,
                    ),
                forall|n: int|
                    lines_start <= n < r@.len() ==> #[trigger] r@[n] == self.spec_hline(
                        n - lines_start,
                    ),
            decreases self.line + 1 - i2,
        {
            proof {
                assert(self.height_pixel * i2 <= 0x10000 * 0x10000) by (nonlinear_arith)
                    requires
                        0 <= self.height_pixel <= 0x10000,
                        0 <= i2 <= 0x10000,
                ;
                assert(self.width_pixel * self.col <= 0x10000 * 0x10000) by (nonlinear_arith)
                    requires
                        0 <= self.width_pixel <= 0x10000,
                        0 <= self.col <= 0x10000,
                ;
            }
            let y = self.pos.y as i64 + (self.height_pixel as i64) * (i2 as i64);
            let cmd = DrawCmd::LineSeg {
                x0: self.pos.x as i64,
                y0: y,
                x1: self.pos.x as i64 + (self.width_pixel as i64) * (self.col as i64),
                y1: y,
                stroke: self.stroke,
            };
            r.push(cmd);
            i2 = i2 + 1;
        }
        r
    }

    /// The color of one pool cell, or `None` outside the capacity.
    pub fn cell_color(&self, row: usize, col: usize) -> (r: Option<Color>)
        requires
            self.wf(),
        ensures
            row < self.max_line && col < self.max_col ==> r == Some(
                cell_at(self.pixels@, self.max_col as int, row as int, col as int).color,
            ),
            !(row < self.max_line && col < self.max_col) ==> r is None,
    {
        if row < self.max_line && col < self.max_col {
            proof {
                lemma_flat_index_bound(
                    row as int,
                    col as int,
                    self.max_line as int,
                    self.max_col as int,
                );
            }
            let idx = row * self.max_col + col;
            Some(self.pixels[idx].color)
        } else {
            None
        }
    }

    /// Feed one input event through the interaction state machine. Only
    /// the anchor, the cell pool and the interaction state can change, and
    /// they move exactly as the transition function `spec_step` says.
    pub fn handle_event(&mut self, event: &Event, state: &mut State)
        requires
            old(self).wf(),
        ensures
            final(self).wf(),
            *final(self) == (Canvas {
                pos: final(self).pos,
                pixels: final(self).pixels,
                ..*old(self)
            }),
            (final(self).pos, final(self).pixels@, *final(state)) == spec_step(
                *old(self),
                *old(state),
                *event,
            ),
    {
        match *state {
            State::Idle => {
                match *event {
                    Event::PointerButton { pos, primary, pressed } => {
                        if primary && pressed && self.contains(pos) {
                            *state = State::Drag { drag_anchor: pos, last_pointer: pos };
                        }
                    },
                    _ => {},
                }
            },
            State::Drag { drag_anchor, last_pointer } => {
                match *event {
                    Event::PointerButton { pos: _, primary: _, pressed } => {
                        if !pressed {
                            *state = State::Idle;
                        }
                    },
                    Event::PointerMoved(pos) => {
                        match self.state {
                            StateCanvas::Draw => {
                                if self.contains(pos) {
                                    let from = if self.contains(last_pointer) {
                                        last_pointer
                                    } else {
                                        pos
                                    };
                                    let cells = self.bresenham(from, pos);
                                    let ghost t = self.spec_trace_on(from, pos);
                                    let color = self.color_pick_left_click;
                                    proof {
                                        assert(t.take(0) =~= Seq::<(int, int)>::empty());
                                    }
                                    let mut idx: usize = 0;
                                    while idx < cells.len()
                                        invariant
                                            self.wf(),
                                            *self == (Canvas {
                                                pixels: self.pixels,
                                                ..*old(self)
                                            }),
                                            cells@.map_values(
                                                |c: (i32, i32)| (c.0 as int, c.1 as int),
                                            ) == t,
                                            idx <= cells@.len(),
                                            color == old(self).color_pick_left_click,
                                            self.pixels@ == spec_paint(
                                                old(self).pixels@,
                                                t.take(idx as int),
                                                color,
                                                old(self).line as int,
                                                old(self).col as int,
                                                old(self).max_col as int,
                                            ),
                                        decreases cells@.len() - idx,
                                    {
                                        let rc = cells[idx];
                                        proof {
                                            assert(t[idx as int] == (
                                                cells@.map_values(
                                                    |c: (i32, i32)| (c.0 as int, c.1 as int),
                                                )
                                            )[idx as int]);
                                            assert(t.take(idx as int + 1).drop_last() =~= t.take(
                                                idx as int,
                                            ));
                                            assert(t.take(idx as int + 1).last() == t[idx as int]);
                                        }
                                        if rc.0 >= 0 && rc.1 >= 0 {
                                            self.set_cell(rc.0 as usize, rc.1 as usize, color);
                                        }
                                        idx = idx + 1;
                                    }
                                    proof {
                                        assert(t.take(cells@.len() as int) =~= t);
                                    }
                                    *state = State::Drag { drag_anchor, last_pointer: pos };
                                }
                            },
                            StateCanvas::Drag => {
                                let nx = self.pos.x as i64 + pos.x as i64 - drag_anchor.x as i64;
                                let ny = self.pos.y as i64 + pos.y as i64 - drag_anchor.y as i64;
                                let cx = if nx < i32::MIN as i64 {
                                    i32::MIN
                                } else if nx > i32::MAX as i64 {
                                    i32::MAX
                                } else {
                                    nx as i32
                                };
                                let cy = if ny < i32::MIN as i64 {
                                    i32::MIN
                                } else if ny > i32::MAX as i64 {
                                    i32::MAX
                                } else {
                                    ny as i32
                                };
                                self.pos = Pos { x: cx, y: cy };
                                *state = State::Drag { drag_anchor: pos, last_pointer };
                            },
                        }
                    },
                    Event::Other => {},
                }
            },
        }
    }
}

/// The pool after painting the given cells with `color`, in order; a cell
/// outside the visible `line` by `col` extent is absorbed as a no-op.
pub open spec fn spec_paint(
    px: Seq<Pixel>,
    cells: Seq<(int, int)>,
    color: Color,
    line: int,
    col: int,
    max_col: int,
) -> Seq<Pixel>
    decreases cells.len(),
{
    if cells.len() == 0 {
        px
    } else {
        let rest = spec_paint(px, cells.drop_last(), color, line, col, max_col);
        let rc = cells.last();
        if 0 <= rc.0 < line && 0 <= rc.1 < col {
            rest.update(rc.0 * max_col + rc.1, Pixel { color })
        } else {
            rest
        }
    }
}

/// The interaction state machine: how one event takes the canvas anchor,
/// the cell pool and the interaction state to their next values.
///
/// An in-grid primary press starts a drag, recording the pan reference
/// point and the last pointer position; any release ends it. While
/// dragging, a pointer move either paints the rasterized stroke from the
/// last pointer position (draw sub-mode, only while the pointer stays in
/// the grid) or shifts the anchor by the move delta (pan sub-mode). If the
/// grid was panned away from under a recorded pointer position by a
/// keyboard pan, the stroke restarts at the current cell. Everything else
/// is ignored.
pub open spec fn spec_step(c: Canvas, s: State, ev: Event) -> (Pos, Seq<Pixel>, State) {
    match s {
        State::Idle => match ev {
            Event::PointerButton { pos, primary, pressed } => {
                if primary && pressed && c.spec_contains(pos.x as int, pos.y as int) {
                    (c.pos, c.pixels@, State::Drag { drag_anchor: pos, last_pointer: pos })
                } else {
                    (c.pos, c.pixels@, s)
                }
            },
            _ => (c.pos, c.pixels@, s),
        },
        State::Drag { drag_anchor, last_pointer } => match ev {
            Event::PointerButton { pos, primary, pressed } => {
                if !pressed {
                    (c.pos, c.pixels@, State::Idle)
                } else {
                    (c.pos, c.pixels@, s)
                }
            },
            Event::PointerMoved(pos) => match c.state {
                StateCanvas::Draw => {
                    if c.spec_contains(pos.x as int, pos.y as int) {
                        let from = if c.spec_contains(
                            last_pointer.x as int,
                            last_pointer.y as int,
                        ) {
                            last_pointer
                        } else {
                            pos
                        };
                        (
                            c.pos,
                            spec_paint(
                                c.pixels@,
                                c.spec_trace_on(from, pos),
                                c.color_pick_left_click,
                                c.line as int,
                                c.col as int,
                                c.max_col as int,
                            ),
                            State::Drag { drag_anchor, last_pointer: pos },
                        )
                    } else {
                        (c.pos, c.pixels@, s)
                    }
                },
                StateCanvas::Drag => (
                    Pos {
                        x: clip_i32(c.pos.x + pos.x - drag_anchor.x) as i32,
                        y: clip_i32(c.pos.y + pos.y - drag_anchor.y) as i32,
                    },
                    c.pixels@,
                    State::Drag { drag_anchor: pos, last_pointer },
                ),
            },
            Event::Other => (c.pos, c.pixels@, s),
        },
    }
}

impl Default for Canvas {
    /// The canvas the application starts with: 200 by 200 cells of
    /// capacity, half of it visible, a 2-pixel blue grid stroke, anchored
    /// at screen point (200, 200).
    fn default() -> (c: Canvas)
        ensures
            c.wf(),
            c.pos == (Pos { x: 200, y: 200 }),
            c.state == StateCanvas::Draw,
            c.stroke == (Stroke { width: 2, color: spec_blue() }),
            c.width_pixel == 10,
            c.height_pixel == 10,
            c.max_line == 200,
            c.max_col == 200,
            c.line == 100,
            c.col == 100,
            c.pixels@.len() == 200 * 200,
            forall|k: int| 0 <= k < c.pixels@.len() ==> c.pixels@[k].color == spec_white(),
            c.color_pick_left_click == spec_black(),
            c.color_pick_right_click == spec_white(),
    {
        Canvas::new(200, 200, Stroke::new(2, Color::blue()), Pos::new(200, 200))
    }
}

/// Coordinate round-trip: for every visible cell, the screen point at the
/// cell top-left corner maps back to exactly that cell.
pub proof fn lemma_cell_corner_round_trip(c: Canvas, row: int, col: int)
    requires
        c.wf(),
        0 <= row < c.line,
        0 <= col < c.col,
    ensures
        c.spec_to_cell(
            c.pos.x + c.width_pixel * col,
            c.pos.y + c.height_pixel * row,
        ) == Some((row, col)),
{
    let w = c.width_pixel as int;
    let h = c.height_pixel as int;
    vstd::arithmetic::div_mod::lemma_div_multiples_vanish(col, w);
    vstd::arithmetic::div_mod::lemma_div_multiples_vanish(row, h);
    assert(c.spec_cell_col(c.pos.x + w * col) == (w * col) / w);
    assert(c.spec_cell_row(c.pos.y + h * row) == (h * row) / h);
}

/// A release event while the machine is already idle changes nothing:
/// not the anchor, not a cell, not the state.
pub proof fn lemma_release_while_idle(c: Canvas, pos: Pos, primary: bool)
    ensures
        spec_step(c, State::Idle, Event::PointerButton { pos, primary, pressed: false }) == (
            c.pos,
            c.pixels@,
            State::Idle,
        ),
{
}

/// Stroke tracing does not depend on endpoint order: both orders touch
/// the same cells, in the same walk order.
pub proof fn lemma_trace_on_symmetric(c: Canvas, p0: Pos, p1: Pos)
    requires
        c.wf(),
    ensures
        c.spec_trace_on(p0, p1) == c.spec_trace_on(p1, p0),
{
    raster::lemma_trace_symmetric(
        p0.x - c.pos.x,
        p0.y - c.pos.y,
        p1.x - c.pos.x,
        p1.y - c.pos.y,
        c.width_pixel as int,
        c.height_pixel as int,
    );
}

/// A stroke trace is never empty, never skips a cell (consecutive cells
/// are 8-connected), and starts at one endpoint cell.
pub proof fn lemma_trace_on_connected(c: Canvas, p0: Pos, p1: Pos)
    requires
        c.wf(),
    ensures
        c.spec_trace_on(p0, p1).len() >= 1,
        raster::eight_connected(c.spec_trace_on(p0, p1)),
        c.spec_trace_on(p0, p1)[0] == (
            c.spec_cell_row(p0.y as int),
            c.spec_cell_col(p0.x as int),
        ) || c.spec_trace_on(p0, p1)[0] == (
            c.spec_cell_row(p1.y as int),
            c.spec_cell_col(p1.x as int),
        ),
{
    raster::lemma_trace_connected(
        p0.x - c.pos.x,
        p0.y - c.pos.y,
        p1.x - c.pos.x,
        p1.y - c.pos.y,
        c.width_pixel as int,
        c.height_pixel as int,
    );
    raster::lemma_trace_first_cell(
        p0.x - c.pos.x,
        p0.y - c.pos.y,
        p1.x - c.pos.x,
        p1.y - c.pos.y,
        c.width_pixel as int,
        c.height_pixel as int,
    );
}

/// A stroke between two points that lie exactly on cell corners covers
/// both endpoint cells.
pub proof fn lemma_trace_on_covers_corner_endpoints(c: Canvas, p0: Pos, p1: Pos)
    requires
        c.wf(),
        (p0.x - c.pos.x) % (c.width_pixel as int) == 0,
        (p1.x - c.pos.x) % (c.width_pixel as int) == 0,
        (p0.y - c.pos.y) % (c.height_pixel as int) == 0,
        (p1.y - c.pos.y) % (c.height_pixel as int) == 0,
    ensures
        c.spec_trace_on(p0, p1).contains(
            (c.spec_cell_row(p0.y as int), c.spec_cell_col(p0.x as int)),
        ),
        c.spec_trace_on(p0, p1).contains(
            (c.spec_cell_row(p1.y as int), c.spec_cell_col(p1.x as int)),
        ),
{
    raster::lemma_trace_aligned_covers_endpoints(
        p0.x - c.pos.x,
        p0.y - c.pos.y,
        p1.x - c.pos.x,
        p1.y - c.pos.y,
        c.width_pixel as int,
        c.height_pixel as int,
    );
}

/// Row `r`, column `c` of a row-major pool with `max_col` columns is a
/// valid flat index.
proof fn lemma_flat_index_bound(r: int, c: int, max_line: int, max_col: int)
    requires
        0 <= r < max_line,
        0 <= c < max_col,
    ensures
        0 <= r * max_col + c < max_line * max_col,
{
    assert(0 <= r * max_col + c < max_line * max_col) by (nonlinear_arith)
        requires
            0 <= r < max_line,
            0 <= c < max_col,
    ;
}

/// Flat row-major indices are unique: equal indices mean the same cell.
proof fn lemma_flat_index_unique(r1: int, c1: int, r2: int, c2: int, max_col: int)
    requires
        0 <= c1 < max_col,
        0 <= c2 < max_col,
        0 <= r1,
        0 <= r2,
        r1 * max_col + c1 == r2 * max_col + c2,
    ensures
        r1 == r2 && c1 == c2,
{
    assert(r1 == r2 && c1 == c2) by (nonlinear_arith)
        requires
            0 <= c1 < max_col,
            0 <= c2 < max_col,
            r1 * max_col + c1 == r2 * max_col + c2,
    ;
}

} // verus!
