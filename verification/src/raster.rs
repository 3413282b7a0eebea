//! Line rasterization in grid space.
//!
//! A stroke between two screen points must color every cell the straight
//! segment between them touches, with no gaps, because pointer positions
//! arrive at a finite sampling rate. The algorithm is a symmetric Bresenham
//! walk over fractional grid coordinates `(point - anchor) / cell_size`:
//! the axis with the larger span becomes the major axis, the endpoints are
//! ordered so the major coordinate increases, and an error accumulator
//! advances the minor coordinate by at most one cell per major step.
//!
//! All arithmetic here is exact: a fractional grid coordinate is kept as a
//! screen offset together with its cell-size denominator, and the error
//! terms are scaled by both denominators so that every comparison the
//! classic algorithm makes on fractions is made on integers.

use vstd::prelude::*;
use vstd::arithmetic::div_mod::{
    lemma_basic_div, lemma_div_is_ordered, lemma_div_pos_is_pos, lemma_fundamental_div_mod,
    lemma_fundamental_div_mod_converse_div, lemma_mod_division_less_than_divisor,
    lemma_multiply_divide_lt,
};
use vstd::arithmetic::mul::{lemma_mul_inequality, lemma_mul_nonnegative};
use vstd::math::{abs, max, min};

verus! {

/// How many minor-axis steps the walk has taken when it emits the cell at
/// major-axis step `i`, for the scaled major span `dxs` and scaled absolute
/// minor span `dya` (the walk keeps `0 <= dya <= dxs`).
pub open spec fn minor_steps(dya: int, dxs: int, i: int) -> int {
    if dxs <= 0 {
        0
    } else {
        (2 * dya * i + dxs - 1) / (2 * dxs)
    }
}

/// The direction the minor coordinate moves: toward the end point.
pub open spec fn minor_dir(b0: int, b1: int) -> int {
    if b1 > b0 {
        1
    } else {
        -1
    }
}

/// The cell emitted at major-axis step `i` of the normalized walk from
/// `(a0, b0)` to `(a1, b1)`, where `a` is the major axis with denominator
/// `aden`, `b` the minor axis with denominator `bden`, and `a0 <= a1`.
/// The pair is returned as `(row, col)`: for a steep walk the major axis
/// is vertical, otherwise it is horizontal.
pub open spec fn line_cell(
    a0: int,
    a1: int,
    b0: int,
    b1: int,
    aden: int,
    bden: int,
    steep: bool,
    i: int,
) -> (int, int) {
    let x = a0 / aden + i;
    let y = b0 / bden + minor_dir(b0, b1) * minor_steps(
        abs(b1 - b0) * aden,
        (a1 - a0) * bden,
        i,
    );
    if steep {
        (x, y)
    } else {
        (y, x)
    }
}

/// All cells of the normalized walk, one per major-axis cell from
/// `a0 / aden` up to `a1 / aden` inclusive.
pub open spec fn line_cells(
    a0: int,
    a1: int,
    b0: int,
    b1: int,
    aden: int,
    bden: int,
    steep: bool,
) -> Seq<(int, int)> {
    Seq::new(
        (a1 / aden - a0 / aden + 1) as nat,
        |i: int| line_cell(a0, a1, b0, b1, aden, bden, steep, i),
    )
}

/// A span is steep when it covers more grid rows than grid columns:
/// `|sx0 - sx1| / w < |sy0 - sy1| / h`, stated without fractions.
pub open spec fn is_steep(sx0: int, sy0: int, sx1: int, sy1: int, w: int, h: int) -> bool {
    abs(sx0 - sx1) * h < abs(sy0 - sy1) * w
}

/// The ordered `(row, col)` cells that a straight stroke between the
/// grid-relative screen points `(sx0, sy0)` and `(sx1, sy1)` touches, on a
/// grid with cell width `w` and cell height `h`. The steeper axis is walked
/// one cell at a time; the endpoints are ordered along that axis first.
pub open spec fn spec_trace(sx0: int, sy0: int, sx1: int, sy1: int, w: int, h: int) -> Seq<
    (int, int),
> {
    if is_steep(sx0, sy0, sx1, sy1, w, h) {
        if sy0 > sy1 {
            line_cells(sy1, sy0, sx1, sx0, h, w, true)
        } else {
            line_cells(sy0, sy1, sx0, sx1, h, w, true)
        }
    } else {
        if sx0 > sx1 {
            line_cells(sx1, sx0, sy1, sy0, w, h, false)
        } else {
            line_cells(sx0, sx1, sy0, sy1, w, h, false)
        }
    }
}

/// Two cells within one step of each other along each axis.
pub open spec fn adjacent_cells(p: (int, int), q: (int, int)) -> bool {
    &&& -1 <= q.0 - p.0 <= 1
    &&& -1 <= q.1 - p.1 <= 1
}

/// Every consecutive pair of cells is 8-connected: a stroke never skips a
/// cell, whatever its slope.
pub open spec fn eight_connected(s: Seq<(int, int)>) -> bool {
    forall|i: int| 0 <= i < s.len() - 1 ==> adjacent_cells(#[trigger] s[i], s[i + 1])
}

/// The walk takes no minor step before its first cell.
proof fn lemma_minor_steps_zero(dya: int, dxs: int)
    requires
        0 <= dya <= dxs,
    ensures
        minor_steps(dya, dxs, 0) == 0,
{
    if dxs > 0 {
        assert(2 * dya * 0 + dxs - 1 == dxs - 1);
        lemma_basic_div(dxs - 1, 2 * dxs);
    }
}

/// Each major step advances the minor count by zero or one.
proof fn lemma_minor_steps_step(dya: int, dxs: int, i: int)
    requires
        0 <= dya <= dxs,
        0 <= i,
    ensures
        minor_steps(dya, dxs, i) <= minor_steps(dya, dxs, i + 1) <= minor_steps(dya, dxs, i) + 1,
{
    if dxs > 0 {
        let d = 2 * dxs;
        let n = 2 * dya * i + dxs - 1;
        let n2 = 2 * dya * (i + 1) + dxs - 1;
        assert(n2 == n + 2 * dya) by (nonlinear_arith)
            requires
                n == 2 * dya * i + dxs - 1,
                n2 == 2 * dya * (i + 1) + dxs - 1,
        ;
        lemma_fundamental_div_mod(n, d);
        lemma_mod_division_less_than_divisor(n, d);
        let q = n / d;
        let r = n % d;
        assert(n == q * d + r) by (nonlinear_arith)
            requires
                n == d * q + r,
        ;
        if r + 2 * dya < d {
            lemma_fundamental_div_mod_converse_div(n2, d, q, r + 2 * dya);
        } else {
            assert(n2 == (q + 1) * d + (r + 2 * dya - d)) by (nonlinear_arith)
                requires
                    n2 == q * d + r + 2 * dya,
            ;
            lemma_fundamental_div_mod_converse_div(n2, d, q + 1, r + 2 * dya - d);
        }
    }
}

/// A normalized walk is non-empty and 8-connected.
proof fn lemma_line_cells_connected(
    a0: int,
    a1: int,
    b0: int,
    b1: int,
    aden: int,
    bden: int,
    steep: bool,
)
    requires
        1 <= aden,
        1 <= bden,
        a0 <= a1,
        abs(b1 - b0) * aden <= (a1 - a0) * bden,
    ensures
        line_cells(a0, a1, b0, b1, aden, bden, steep).len() >= 1,
        eight_connected(line_cells(a0, a1, b0, b1, aden, bden, steep)),
{
    lemma_div_is_ordered(a0, a1, aden);
    let s = line_cells(a0, a1, b0, b1, aden, bden, steep);
    let dya = abs(b1 - b0) * aden;
    let dxs = (a1 - a0) * bden;
    lemma_mul_nonnegative(abs(b1 - b0) as int, aden);
    assert forall|i: int| 0 <= i < s.len() - 1 implies adjacent_cells(#[trigger] s[i], s[i + 1]) by {
        lemma_minor_steps_step(dya, dxs, i);
        let m0 = minor_steps(dya, dxs, i);
        let m1 = minor_steps(dya, dxs, i + 1);
        if b1 > b0 {
            assert(minor_dir(b0, b1) == 1);
            assert(minor_dir(b0, b1) * m0 == m0) by (nonlinear_arith)
                requires
                    minor_dir(b0, b1) == 1,
            ;
            assert(minor_dir(b0, b1) * m1 == m1) by (nonlinear_arith)
                requires
                    minor_dir(b0, b1) == 1,
            ;
        } else {
            assert(minor_dir(b0, b1) == -1);
            assert(minor_dir(b0, b1) * m0 == -m0) by (nonlinear_arith)
                requires
                    minor_dir(b0, b1) == -1,
            ;
            assert(minor_dir(b0, b1) * m1 == -m1) by (nonlinear_arith)
                requires
                    minor_dir(b0, b1) == -1,
            ;
        }
        assert(s[i] == line_cell(a0, a1, b0, b1, aden, bden, steep, i));
        assert(s[i + 1] == line_cell(a0, a1, b0, b1, aden, bden, steep, i + 1));
    }
}

/// The first cell of a normalized walk is the start point's cell.
proof fn lemma_line_cells_first(
    a0: int,
    a1: int,
    b0: int,
    b1: int,
    aden: int,
    bden: int,
    steep: bool,
)
    requires
        1 <= aden,
        1 <= bden,
        a0 <= a1,
        abs(b1 - b0) * aden <= (a1 - a0) * bden,
    ensures
        line_cells(a0, a1, b0, b1, aden, bden, steep).len() >= 1,
        line_cells(a0, a1, b0, b1, aden, bden, steep)[0] == (if steep {
            (a0 / aden, b0 / bden)
        } else {
            (b0 / bden, a0 / aden)
        }),
{
    lemma_div_is_ordered(a0, a1, aden);
    let dya = abs(b1 - b0) * aden;
    let dxs = (a1 - a0) * bden;
    lemma_mul_nonnegative(abs(b1 - b0) as int, aden);
    lemma_minor_steps_zero(dya, dxs);
    assert(line_cells(a0, a1, b0, b1, aden, bden, steep)[0] == line_cell(
        a0,
        a1,
        b0,
        b1,
        aden,
        bden,
        steep,
        0,
    ));
}

/// The last cell of a walk between two cell corners is the end point's
/// cell.
proof fn lemma_line_cells_aligned_last(
    a0: int,
    a1: int,
    b0: int,
    b1: int,
    aden: int,
    bden: int,
    steep: bool,
)
    requires
        1 <= aden,
        1 <= bden,
        a0 <= a1,
        abs(b1 - b0) * aden <= (a1 - a0) * bden,
        a0 % aden == 0,
        a1 % aden == 0,
        b0 % bden == 0,
        b1 % bden == 0,
    ensures
        line_cells(a0, a1, b0, b1, aden, bden, steep).len() >= 1,
        line_cells(a0, a1, b0, b1, aden, bden, steep).last() == (if steep {
            (a1 / aden, b1 / bden)
        } else {
            (b1 / bden, a1 / aden)
        }),
{
    lemma_div_is_ordered(a0, a1, aden);
    let xs = a0 / aden;
    let xe = a1 / aden;
    let ys = b0 / bden;
    let ye = b1 / bden;
    lemma_fundamental_div_mod(a0, aden);
    lemma_fundamental_div_mod(a1, aden);
    lemma_fundamental_div_mod(b0, bden);
    lemma_fundamental_div_mod(b1, bden);
    assert(a0 == aden * xs && a1 == aden * xe && b0 == bden * ys && b1 == bden * ye);
    let nn = xe - xs;
    let dd = if ye >= ys {
        ye - ys
    } else {
        ys - ye
    };
    let g = aden * bden;
    let dya = abs(b1 - b0) * aden;
    let dxs = (a1 - a0) * bden;
    assert(g >= 1) by (nonlinear_arith)
        requires
            g == aden * bden,
            aden >= 1,
            bden >= 1,
    ;
    assert(a1 - a0 == aden * nn) by (nonlinear_arith)
        requires
            a0 == aden * xs,
            a1 == aden * xe,
            nn == xe - xs,
    ;
    assert(dxs == nn * g) by (nonlinear_arith)
        requires
            dxs == (a1 - a0) * bden,
            a1 - a0 == aden * nn,
            g == aden * bden,
    ;
    let ab = abs(b1 - b0) as int;
    assert(ab == if b1 >= b0 {
        b1 - b0
    } else {
        b0 - b1
    });
    assert(ab == bden * dd) by (nonlinear_arith)
        requires
            b0 == bden * ys,
            b1 == bden * ye,
            bden >= 1,
            dd == (if ye >= ys { ye - ys } else { ys - ye }),
            ab == (if b1 >= b0 { b1 - b0 } else { b0 - b1 }),
    ;
    assert(dya == dd * g) by (nonlinear_arith)
        requires
            dya == ab * aden,
            ab == bden * dd,
            g == aden * bden,
    ;
    assert(dd <= nn) by (nonlinear_arith)
        requires
            dya == dd * g,
            dxs == nn * g,
            dya <= dxs,
            g >= 1,
    ;
    assert(nn >= 0);
    let s = line_cells(a0, a1, b0, b1, aden, bden, steep);
    assert(s.last() == line_cell(a0, a1, b0, b1, aden, bden, steep, nn));
    if nn == 0 {
        assert(dxs == 0) by (nonlinear_arith)
            requires
                dxs == nn * g,
                nn == 0,
        ;
        assert(dd == 0);
        assert(minor_steps(dya, dxs, nn) == 0);
        assert(ye == ys) by (nonlinear_arith)
            requires
                b0 == bden * ys,
                b1 == bden * ye,
                abs(b1 - b0) == bden * dd,
                dd == 0,
                bden >= 1,
        ;
    } else {
        assert(dxs >= 1) by (nonlinear_arith)
            requires
                dxs == nn * g,
                nn >= 1,
                g >= 1,
        ;
        assert(2 * dya * nn + dxs - 1 == dd * (2 * dxs) + (nn * g - 1)) by (nonlinear_arith)
            requires
                dya == dd * g,
                dxs == nn * g,
        ;
        assert(0 <= nn * g - 1 < 2 * dxs) by (nonlinear_arith)
            requires
                dxs == nn * g,
                nn >= 1,
                g >= 1,
        ;
        lemma_fundamental_div_mod_converse_div(2 * dya * nn + dxs - 1, 2 * dxs, dd, nn * g - 1);
        assert(minor_steps(dya, dxs, nn) == dd);
        if b1 > b0 {
            assert(ye > ys) by (nonlinear_arith)
                requires
                    b0 == bden * ys,
                    b1 == bden * ye,
                    b1 > b0,
                    bden >= 1,
            ;
            assert(dd == ye - ys);
        } else if b1 < b0 {
            assert(ye < ys) by (nonlinear_arith)
                requires
                    b0 == bden * ys,
                    b1 == bden * ye,
                    b1 < b0,
                    bden >= 1,
            ;
            assert(dd == ys - ye);
        } else {
            assert(dd == 0);
        }
    }
    assert(minor_steps(dya, dxs, nn) == dd);
    if b1 > b0 {
        assert(minor_dir(b0, b1) * dd == dd) by (nonlinear_arith)
            requires
                minor_dir(b0, b1) == 1,
        ;
        assert(ys + dd == ye);
    } else {
        assert(minor_dir(b0, b1) * dd == -dd) by (nonlinear_arith)
            requires
                minor_dir(b0, b1) == -1,
        ;
        assert(ys - dd == ye);
    }
    assert(s.last() == line_cell(a0, a1, b0, b1, aden, bden, steep, nn));
}

/// Tracing is endpoint-order symmetric: both orders of the same two
/// points give the same cells in the same walk order, because the walk
/// always proceeds in increasing major coordinate.
pub proof fn lemma_trace_symmetric(sx0: int, sy0: int, sx1: int, sy1: int, w: int, h: int)
    requires
        1 <= w,
        1 <= h,
    ensures
        spec_trace(sx0, sy0, sx1, sy1, w, h) == spec_trace(sx1, sy1, sx0, sy0, w, h),
{
    assert(abs(sx0 - sx1) == abs(sx1 - sx0));
    assert(abs(sy0 - sy1) == abs(sy1 - sy0));
    if is_steep(sx0, sy0, sx1, sy1, w, h) {
        if sy0 == sy1 {
            assert(abs(sy0 - sy1) * w == 0) by (nonlinear_arith)
                requires
                    abs(sy0 - sy1) == 0int,
            ;
            lemma_mul_nonnegative(abs(sx0 - sx1) as int, h);
            assert(false);
        }
    } else {
        if sx0 == sx1 {
            assert(abs(sx0 - sx1) * h == 0) by (nonlinear_arith)
                requires
                    abs(sx0 - sx1) == 0int,
            ;
            lemma_mul_nonnegative(abs(sy0 - sy1) as int, w);
            assert(abs(sy0 - sy1) == 0) by (nonlinear_arith)
                requires
                    abs(sy0 - sy1) * w <= 0,
                    w >= 1,
                    abs(sy0 - sy1) >= 0,
            ;
            assert(sy0 == sy1);
        }
    }
}

/// A traced stroke is never empty and skips no cell: every pair of
/// consecutive cells is 8-connected, whatever the slope.
pub proof fn lemma_trace_connected(sx0: int, sy0: int, sx1: int, sy1: int, w: int, h: int)
    requires
        1 <= w,
        1 <= h,
    ensures
        spec_trace(sx0, sy0, sx1, sy1, w, h).len() >= 1,
        eight_connected(spec_trace(sx0, sy0, sx1, sy1, w, h)),
{
    assert(abs(sx0 - sx1) == abs(sx1 - sx0));
    assert(abs(sy0 - sy1) == abs(sy1 - sy0));
    if is_steep(sx0, sy0, sx1, sy1, w, h) {
        if sy0 > sy1 {
            lemma_line_cells_connected(sy1, sy0, sx1, sx0, h, w, true);
        } else {
            lemma_line_cells_connected(sy0, sy1, sx0, sx1, h, w, true);
        }
    } else {
        if sx0 > sx1 {
            lemma_line_cells_connected(sx1, sx0, sy1, sy0, w, h, false);
        } else {
            lemma_line_cells_connected(sx0, sx1, sy0, sy1, w, h, false);
        }
    }
}

/// The trace begins at an endpoint cell: the cell of whichever endpoint
/// comes first along the walk major axis.
pub proof fn lemma_trace_first_cell(sx0: int, sy0: int, sx1: int, sy1: int, w: int, h: int)
    requires
        1 <= w,
        1 <= h,
    ensures
        spec_trace(sx0, sy0, sx1, sy1, w, h).len() >= 1,
        spec_trace(sx0, sy0, sx1, sy1, w, h)[0] == (sy0 / h, sx0 / w) || spec_trace(
            sx0,
            sy0,
            sx1,
            sy1,
            w,
            h,
        )[0] == (sy1 / h, sx1 / w),
{
    assert(abs(sx0 - sx1) == abs(sx1 - sx0));
    assert(abs(sy0 - sy1) == abs(sy1 - sy0));
    if is_steep(sx0, sy0, sx1, sy1, w, h) {
        if sy0 > sy1 {
            lemma_line_cells_first(sy1, sy0, sx1, sx0, h, w, true);
        } else {
            lemma_line_cells_first(sy0, sy1, sx0, sx1, h, w, true);
        }
    } else {
        if sx0 > sx1 {
            lemma_line_cells_first(sx1, sx0, sy1, sy0, w, h, false);
        } else {
            lemma_line_cells_first(sx0, sx1, sy0, sy1, w, h, false);
        }
    }
}

/// When both endpoints lie exactly on cell corners, the trace contains
/// both endpoint cells: they are the first and last cells of the walk.
pub proof fn lemma_trace_aligned_covers_endpoints(
    sx0: int,
    sy0: int,
    sx1: int,
    sy1: int,
    w: int,
    h: int,
)
    requires
        1 <= w,
        1 <= h,
        sx0 % w == 0,
        sx1 % w == 0,
        sy0 % h == 0,
        sy1 % h == 0,
    ensures
        spec_trace(sx0, sy0, sx1, sy1, w, h).contains((sy0 / h, sx0 / w)),
        spec_trace(sx0, sy0, sx1, sy1, w, h).contains((sy1 / h, sx1 / w)),
{
    assert(abs(sx0 - sx1) == abs(sx1 - sx0));
    assert(abs(sy0 - sy1) == abs(sy1 - sy0));
    let s = spec_trace(sx0, sy0, sx1, sy1, w, h);
    if is_steep(sx0, sy0, sx1, sy1, w, h) {
        if sy0 > sy1 {
            lemma_line_cells_first(sy1, sy0, sx1, sx0, h, w, true);
            lemma_line_cells_aligned_last(sy1, sy0, sx1, sx0, h, w, true);
            assert(s[0] == (sy1 / h, sx1 / w));
            assert(s[s.len() - 1] == (sy0 / h, sx0 / w));
        } else {
            lemma_line_cells_first(sy0, sy1, sx0, sx1, h, w, true);
            lemma_line_cells_aligned_last(sy0, sy1, sx0, sx1, h, w, true);
            assert(s[0] == (sy0 / h, sx0 / w));
            assert(s[s.len() - 1] == (sy1 / h, sx1 / w));
        }
    } else {
        if sx0 > sx1 {
            lemma_line_cells_first(sx1, sx0, sy1, sy0, w, h, false);
            lemma_line_cells_aligned_last(sx1, sx0, sy1, sy0, w, h, false);
            assert(s[0] == (sy1 / h, sx1 / w));
            assert(s[s.len() - 1] == (sy0 / h, sx0 / w));
        } else {
            lemma_line_cells_first(sx0, sx1, sy0, sy1, w, h, false);
            lemma_line_cells_aligned_last(sx0, sx1, sy0, sy1, w, h, false);
            assert(s[0] == (sy0 / h, sx0 / w));
            assert(s[s.len() - 1] == (sy1 / h, sx1 / w));
        }
    }
}

/// The walk covers the major axis completely: one cell for every
/// major-axis cell between the two endpoints, in order, with no gap and
/// no repeat. Together with 8-connectivity this is what keeps a fast
/// stroke from skipping cells.
pub proof fn lemma_trace_covers_major_span(
    sx0: int,
    sy0: int,
    sx1: int,
    sy1: int,
    w: int,
    h: int,
)
    requires
        1 <= w,
        1 <= h,
    ensures
        ({
            let s = spec_trace(sx0, sy0, sx1, sy1, w, h);
            if is_steep(sx0, sy0, sx1, sy1, w, h) {
                let lo = min(sy0 / h, sy1 / h);
                let hi = max(sy0 / h, sy1 / h);
                s.len() == hi - lo + 1 && forall|i: int|
                    0 <= i < s.len() ==> (#[trigger] s[i]).0 == lo + i
            } else {
                let lo = min(sx0 / w, sx1 / w);
                let hi = max(sx0 / w, sx1 / w);
                s.len() == hi - lo + 1 && forall|i: int|
                    0 <= i < s.len() ==> (#[trigger] s[i]).1 == lo + i
            }
        }),
{
    assert(abs(sx0 - sx1) == abs(sx1 - sx0));
    assert(abs(sy0 - sy1) == abs(sy1 - sy0));
    if is_steep(sx0, sy0, sx1, sy1, w, h) {
        if sy0 > sy1 {
            lemma_div_is_ordered(sy1, sy0, h);
        } else {
            lemma_div_is_ordered(sy0, sy1, h);
        }
    } else {
        if sx0 > sx1 {
            lemma_div_is_ordered(sx1, sx0, w);
        } else {
            lemma_div_is_ordered(sx0, sx1, w);
        }
    }
}

/// Rasterize the stroke from `(sx0, sy0)` to `(sx1, sy1)`, both given as
/// screen offsets from the grid anchor, on cells of size `w` by `h`.
/// Returns the touched cells as `(row, col)` pairs, in walk order.
pub fn trace_span(sx0: i64, sy0: i64, sx1: i64, sy1: i64, w: i64, h: i64) -> (r: Vec<(i32, i32)>)
    requires
        1 <= w <= 0x10000,
        1 <= h <= 0x10000,
        0 <= sx0 && sx0 < w * 0x10000,
        0 <= sx1 && sx1 < w * 0x10000,
        0 <= sy0 && sy0 < h * 0x10000,
        0 <= sy1 && sy1 < h * 0x10000,
    ensures
        r@.map_values(|c: (i32, i32)| (c.0 as int, c.1 as int)) == spec_trace(
            sx0 as int,
            sy0 as int,
            sx1 as int,
            sy1 as int,
            w as int,
            h as int,
        ),
{
    proof {
        lemma_mul_inequality(w as int, 0x10000, 0x10000);
        lemma_mul_inequality(h as int, 0x10000, 0x10000);
    }
    let adx = if sx0 >= sx1 {
        sx0 - sx1
    } else {
        sx1 - sx0
    };
    let ady = if sy0 >= sy1 {
        sy0 - sy1
    } else {
        sy1 - sy0
    };
    proof {
        assert(adx * h <= 0x100000000 * 0x10000) by (nonlinear_arith)
            requires
                0 <= adx <= 0x100000000,
                0 <= h <= 0x10000,
        ;
        assert(ady * w <= 0x100000000 * 0x10000) by (nonlinear_arith)
            requires
                0 <= ady <= 0x100000000,
                0 <= w <= 0x10000,
        ;
    }
    let steep = adx * h < ady * w;
    assert(steep == is_steep(sx0 as int, sy0 as int, sx1 as int, sy1 as int, w as int, h as int));
    let (aa0, aa1, bb0, bb1, aden, bden) = if steep {
        (sy0, sy1, sx0, sx1, h, w)
    } else {
        (sx0, sx1, sy0, sy1, w, h)
    };
    let (a0, a1, b0, b1) = if aa0 > aa1 {
        (aa1, aa0, bb1, bb0)
    } else {
        (aa0, aa1, bb0, bb1)
    };
    assert(spec_trace(sx0 as int, sy0 as int, sx1 as int, sy1 as int, w as int, h as int)
        == line_cells(a0 as int, a1 as int, b0 as int, b1 as int, aden as int, bden as int, steep));

    let xs = a0 / aden;
    let xe = a1 / aden;
    let ys = b0 / bden;
    let dxs = (a1 - a0) * bden;
    let db_abs = if b1 >= b0 {
        b1 - b0
    } else {
        b0 - b1
    };
    let dya = db_abs * aden;
    proof {
        lemma_div_pos_is_pos(a0 as int, aden as int);
        lemma_div_pos_is_pos(b0 as int, bden as int);
        lemma_div_is_ordered(a0 as int, a1 as int, aden as int);
        lemma_multiply_divide_lt(a1 as int, aden as int, 0x10000);
        lemma_multiply_divide_lt(b0 as int, bden as int, 0x10000);
        lemma_mul_nonnegative((a1 - a0) as int, bden as int);
        lemma_mul_nonnegative(db_abs as int, aden as int);
        // the steep choice makes the major span at least the minor span
        if steep {
            assert(dya == adx * h && dxs == ady * w) by (nonlinear_arith)
                requires
                    dya == db_abs * aden,
                    dxs == (a1 - a0) * bden,
                    aden == h,
                    bden == w,
                    db_abs == adx,
                    a1 - a0 == ady,
            ;
        } else {
            assert(dya == ady * w && dxs == adx * h) by (nonlinear_arith)
                requires
                    dya == db_abs * aden,
                    dxs == (a1 - a0) * bden,
                    aden == w,
                    bden == h,
                    db_abs == ady,
                    a1 - a0 == adx,
            ;
        }
        assert(dya <= dxs);
        assert(dxs <= 0x100000000 * 0x10000) by (nonlinear_arith)
            requires
                dxs == (a1 - a0) * bden,
                0 <= a1 - a0 <= 0x100000000,
                0 <= bden <= 0x10000,
        ;
        assert(dya <= 0x100000000 * 0x10000) by (nonlinear_arith)
            requires
                dya == db_abs * aden,
                0 <= db_abs <= 0x100000000,
                0 <= aden <= 0x10000,
        ;
    }
    let derror2 = 2 * dya;
    let dir: i64 = if b1 > b0 {
        1
    } else {
        -1
    };
    let mut error2: i64 = 0;
    let mut y: i64 = ys;
    let ghost mut k: int = 0;
    let mut out: Vec<(i32, i32)> = Vec::new();
    let mut x = xs;
    while x <= xe
        invariant
            1 <= aden <= 0x10000,
            1 <= bden <= 0x10000,
            0 <= a0 <= a1,
            a1 < aden * 0x10000,
            0 <= b0 < bden * 0x10000,
            0 <= b1 < bden * 0x10000,
            xs == a0 as int / aden as int,
            xe == a1 as int / aden as int,
            ys == b0 as int / bden as int,
            0 <= xs <= xe < 0x10000,
            0 <= ys < 0x10000,
            dxs == (a1 - a0) * bden,
            dya == abs(b1 as int - b0 as int) * aden,
            0 <= dya <= dxs <= 0x100000000 * 0x10000,
            derror2 == 2 * dya,
            dir == minor_dir(b0 as int, b1 as int),
            xs <= x <= xe + 1,
            out@.len() == x - xs,
            forall|i: int|
                0 <= i < out@.len() ==> ((#[trigger] out@[i]).0 as int, out@[i].1 as int)
                    == line_cell(
                    a0 as int,
                    a1 as int,
                    b0 as int,
                    b1 as int,
                    aden as int,
                    bden as int,
                    steep,
                    i,
                ),
            y == ys + minor_dir(b0 as int, b1 as int) * k,
            0 <= k <= x - xs,
            error2 == 2 * dya * (x - xs) - 2 * dxs * k,
            dxs > 0 ==> -dxs < error2 <= dxs,
            dxs == 0 ==> error2 == 0 && k == 0 && dya == 0,
        decreases xe + 1 - x,
    {
        proof {
            let i = x as int - xs as int;
            if dxs > 0 {
                lemma_fundamental_div_mod_converse_div(
                    2 * (dya as int) * i + dxs - 1,
                    2 * dxs as int,
                    k,
                    error2 + dxs - 1,
                );
                assert(2 * (dya as int) * i + dxs - 1 == k * (2 * dxs as int) + (error2 + dxs - 1))
                    by (nonlinear_arith)
                    requires
                        error2 == 2 * dya * i - 2 * dxs * k,
                ;
            }
            assert(k == minor_steps(dya as int, dxs as int, i));
        }
        if steep {
            out.push((x as i32, y as i32));
        } else {
            out.push((y as i32, x as i32));
        }
        assert(((out@.last()).0 as int, (out@.last()).1 as int) == line_cell(
            a0 as int,
            a1 as int,
            b0 as int,
            b1 as int,
            aden as int,
            bden as int,
            steep,
            x as int - xs as int,
        ));
        let ghost e0 = error2 as int;
        let ghost k0 = k;
        error2 = error2 + derror2;
        if error2 > dxs {
            y = y + dir;
            error2 = error2 - 2 * dxs;
            proof {
                k = k + 1;
            }
        }
        proof {
            if k == k0 {
                assert(error2 == 2 * dya * (x + 1 - xs) - 2 * dxs * k) by (nonlinear_arith)
                    requires
                        e0 == 2 * dya * (x - xs) - 2 * dxs * k0,
                        k == k0,
                        error2 == e0 + 2 * dya,
                ;
            } else {
                assert(error2 == 2 * dya * (x + 1 - xs) - 2 * dxs * k) by (nonlinear_arith)
                    requires
                        e0 == 2 * dya * (x - xs) - 2 * dxs * k0,
                        k == k0 + 1,
                        error2 == e0 + 2 * dya - 2 * dxs,
                ;
            }
        }
        x = x + 1;
    }
    proof {
        let f = |c: (i32, i32)| (c.0 as int, c.1 as int);
        let s = line_cells(a0 as int, a1 as int, b0 as int, b1 as int, aden as int, bden as int, steep);
        assert(out@.map_values(f) =~= s) by {
            assert(out@.map_values(f).len() == s.len());
            assert forall|i: int| 0 <= i < s.len() implies out@.map_values(f)[i] == s[i] by {
                assert(out@.map_values(f)[i] == f(out@[i]));
            }
        }
    }
    out
}

} // verus!
