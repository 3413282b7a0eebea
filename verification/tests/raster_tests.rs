use pixel_canvas::canvas::Canvas;
use pixel_canvas::geometry::{Color, Pos, Stroke};

fn grid10() -> Canvas {
    let mut c = Canvas::new(10, 10, Stroke::new(1, Color::blue()), Pos::new(0, 0));
    c.resize(10, 10);
    c
}

#[test]
fn trace_horizontal() {
    let c = grid10();
    let cells = c.bresenham(Pos::new(0, 0), Pos::new(35, 0));
    assert_eq!(cells, vec![(0, 0), (0, 1), (0, 2), (0, 3)]);
}

#[test]
fn trace_vertical() {
    let c = grid10();
    let cells = c.bresenham(Pos::new(0, 0), Pos::new(0, 35));
    assert_eq!(cells, vec![(0, 0), (1, 0), (2, 0), (3, 0)]);
}

#[test]
fn trace_diagonal_45() {
    let c = grid10();
    let cells = c.bresenham(Pos::new(0, 0), Pos::new(30, 30));
    assert_eq!(cells, vec![(0, 0), (1, 1), (2, 2), (3, 3)]);
}

#[test]
fn trace_shallow_30() {
    let c = grid10();
    let cells = c.bresenham(Pos::new(0, 0), Pos::new(40, 20));
    assert_eq!(cells, vec![(0, 0), (0, 1), (1, 2), (1, 3), (2, 4)]);
}

#[test]
fn trace_steep_60() {
    let c = grid10();
    let cells = c.bresenham(Pos::new(0, 0), Pos::new(20, 40));
    assert_eq!(cells, vec![(0, 0), (1, 0), (2, 1), (3, 1), (4, 2)]);
}

#[test]
fn trace_negative_slope() {
    let c = grid10();
    let cells = c.bresenham(Pos::new(0, 35), Pos::new(35, 0));
    assert_eq!(cells, vec![(3, 0), (2, 1), (1, 2), (0, 3)]);
}

#[test]
fn trace_single_point() {
    let c = grid10();
    let cells = c.bresenham(Pos::new(57, 43), Pos::new(57, 43));
    assert_eq!(cells, vec![(4, 5)]);
}

#[test]
fn trace_is_endpoint_order_symmetric() {
    let c = grid10();
    let pairs = [
        ((0, 0), (35, 0)),
        ((0, 0), (0, 35)),
        ((0, 0), (30, 30)),
        ((0, 0), (40, 20)),
        ((0, 0), (20, 40)),
        ((0, 35), (35, 0)),
        ((3, 7), (88, 61)),
        ((12, 93), (85, 2)),
    ];
    for ((x0, y0), (x1, y1)) in pairs {
        let fwd = c.bresenham(Pos::new(x0, y0), Pos::new(x1, y1));
        let rev = c.bresenham(Pos::new(x1, y1), Pos::new(x0, y0));
        assert_eq!(fwd, rev);
    }
}

#[test]
fn trace_is_eight_connected_and_starts_at_an_endpoint() {
    let c = grid10();
    let pairs = [
        ((3, 7), (88, 61)),
        ((12, 93), (85, 2)),
        ((99, 99), (0, 50)),
        ((50, 50), (50, 99)),
        ((1, 1), (2, 97)),
    ];
    for ((x0, y0), (x1, y1)) in pairs {
        let cells = c.bresenham(Pos::new(x0, y0), Pos::new(x1, y1));
        assert!(!cells.is_empty());
        let c0 = (y0 / 10, x0 / 10);
        let c1 = (y1 / 10, x1 / 10);
        assert!(cells[0] == c0 || cells[0] == c1);
        for w in cells.windows(2) {
            assert!((w[1].0 - w[0].0).abs() <= 1);
            assert!((w[1].1 - w[0].1).abs() <= 1);
        }
    }
}

#[test]
fn trace_between_cell_corners_covers_both_endpoints() {
    let c = grid10();
    let pairs = [
        ((0, 0), (90, 40)),
        ((20, 80), (70, 10)),
        ((0, 0), (90, 90)),
        ((40, 0), (40, 90)),
    ];
    for ((x0, y0), (x1, y1)) in pairs {
        let cells = c.bresenham(Pos::new(x0, y0), Pos::new(x1, y1));
        let c0 = (y0 / 10, x0 / 10);
        let c1 = (y1 / 10, x1 / 10);
        assert!(cells.contains(&c0));
        assert!(cells.contains(&c1));
    }
}

#[test]
fn trace_respects_cell_geometry() {
    let mut c = grid10();
    c.set_cell_size(20, 5);
    // horizontal span of 60 pixels is three 20-pixel columns on one row
    let cells = c.bresenham(Pos::new(0, 0), Pos::new(59, 0));
    assert_eq!(cells, vec![(0, 0), (0, 1), (0, 2)]);
    // the 5-pixel rows make a 45-degree pixel span a steep walk
    let steep = c.bresenham(Pos::new(0, 0), Pos::new(19, 19));
    assert_eq!(steep, vec![(0, 0), (1, 0), (2, 0), (3, 1)]);
}
