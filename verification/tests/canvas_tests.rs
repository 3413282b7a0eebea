use pixel_canvas::canvas::{Canvas, Event, StateCanvas};
use pixel_canvas::geometry::{Color, DrawCmd, Pos, Stroke};
use pixel_canvas::state::State;

fn grid(rows: usize, cols: usize, anchor: Pos) -> Canvas {
    let mut c = Canvas::new(rows, cols, Stroke::new(1, Color::blue()), anchor);
    c.resize(rows, cols);
    c
}

fn press(c: &mut Canvas, s: &mut State, x: i32, y: i32) {
    let ev = Event::PointerButton { pos: Pos::new(x, y), primary: true, pressed: true };
    c.handle_event(&ev, s);
}

fn release(c: &mut Canvas, s: &mut State) {
    let ev = Event::PointerButton { pos: Pos::new(0, 0), primary: true, pressed: false };
    c.handle_event(&ev, s);
}

fn move_to(c: &mut Canvas, s: &mut State, x: i32, y: i32) {
    let ev = Event::PointerMoved(Pos::new(x, y));
    c.handle_event(&ev, s);
}

#[test]
fn contains_half_open_rectangle() {
    let c = grid(4, 4, Pos::new(5, 5));
    // cells are 10 by 10, so the rectangle is [5, 45) in both axes
    assert!(c.contains(Pos::new(5, 5)));
    assert!(c.contains(Pos::new(44, 44)));
    assert!(!c.contains(Pos::new(45, 44)));
    assert!(!c.contains(Pos::new(44, 45)));
    assert!(!c.contains(Pos::new(4, 10)));
    assert!(!c.contains(Pos::new(10, 4)));
}

#[test]
fn to_cell_round_trip_on_corners() {
    let c = grid(6, 6, Pos::new(7, 9));
    for r in 0..6i32 {
        for col in 0..6i32 {
            let p = Pos::new(7 + 10 * col, 9 + 10 * r);
            assert_eq!(c.to_cell(p), Some((r as usize, col as usize)));
        }
    }
    assert_eq!(c.to_cell(Pos::new(6, 9)), None);
    assert_eq!(c.to_cell(Pos::new(7 + 60, 9)), None);
}

#[test]
fn to_cell_bins_by_truncation() {
    let c = grid(5, 5, Pos::new(0, 0));
    assert_eq!(c.to_cell(Pos::new(22, 22)), Some((2, 2)));
    assert_eq!(c.to_cell(Pos::new(9, 19)), Some((1, 0)));
    assert_eq!(c.to_cell(Pos::new(49, 49)), Some((4, 4)));
}

#[test]
fn new_starts_at_half_capacity_all_white() {
    let c = Canvas::new(200, 200, Stroke::new(2, Color::blue()), Pos::new(200, 200));
    assert_eq!(c.line, 100);
    assert_eq!(c.col, 100);
    assert_eq!(c.width_pixel, 10);
    assert_eq!(c.height_pixel, 10);
    assert_eq!(c.state, StateCanvas::Draw);
    for r in [0usize, 5, 199] {
        for col in [0usize, 7, 199] {
            assert_eq!(c.cell_color(r, col), Some(Color::white()));
        }
    }
}

#[test]
fn default_canvas_matches_construction() {
    let c = Canvas::default();
    assert_eq!(c.pos, Pos::new(200, 200));
    assert_eq!(c.max_line, 200);
    assert_eq!(c.max_col, 200);
    assert_eq!(c.line, 100);
    assert_eq!(c.col, 100);
    assert_eq!(c.stroke, Stroke::new(2, Color::blue()));
    assert_eq!(c.color_pick_left_click, Color::black());
    assert_eq!(c.color_pick_right_click, Color::white());
}

#[test]
fn state_new_is_idle() {
    assert_eq!(State::new(), State::Idle);
    assert_eq!(State::default(), State::Idle);
    assert_eq!(StateCanvas::default(), StateCanvas::Draw);
}

#[test]
fn clear_resets_visible_cells_to_white() {
    let mut c = grid(3, 3, Pos::new(0, 0));
    for r in 0..3 {
        for col in 0..3 {
            c.set_cell(r, col, Color::new(10, 20, 30, 255));
        }
    }
    c.clear();
    for r in 0..3 {
        for col in 0..3 {
            assert_eq!(c.cell_color(r, col), Some(Color::white()));
        }
    }
}

#[test]
fn clear_leaves_cells_outside_visible_extent() {
    let mut c = Canvas::new(4, 4, Stroke::new(1, Color::blue()), Pos::new(0, 0));
    c.resize(4, 4);
    let red = Color::new(200, 0, 0, 255);
    c.set_cell(3, 3, red);
    c.resize(2, 2);
    c.clear();
    // the stale cell is outside the 2x2 extent, so clear left it alone
    c.resize(4, 4);
    assert_eq!(c.cell_color(3, 3), Some(red));
}

#[test]
fn set_cell_out_of_visible_range_is_noop() {
    let mut c = grid(3, 3, Pos::new(0, 0));
    c.set_cell(3, 0, Color::black());
    c.set_cell(0, 3, Color::black());
    for r in 0..3 {
        for col in 0..3 {
            assert_eq!(c.cell_color(r, col), Some(Color::white()));
        }
    }
}

#[test]
fn resize_clamps_to_capacity() {
    let mut c = grid(4, 4, Pos::new(0, 0));
    c.resize(100, 0);
    assert_eq!(c.line, 4);
    assert_eq!(c.col, 1);
    c.resize(2, 3);
    assert_eq!(c.line, 2);
    assert_eq!(c.col, 3);
}

#[test]
fn move_canvas_shifts_anchor() {
    let mut c = grid(3, 3, Pos::new(10, 20));
    c.move_canvas(-15, 7);
    assert_eq!(c.pos, Pos::new(-5, 27));
}

#[test]
fn move_canvas_saturates_at_screen_limits() {
    let mut c = grid(3, 3, Pos::new(0, 0));
    c.move_canvas(i32::MAX, i32::MIN);
    c.move_canvas(i32::MAX, i32::MIN);
    assert_eq!(c.pos, Pos::new(i32::MAX, i32::MIN));
}

#[test]
fn draw_scenario_single_cell() {
    let mut c = grid(5, 5, Pos::new(0, 0));
    let mut s = State::new();
    press(&mut c, &mut s, 22, 22);
    assert!(matches!(s, State::Drag { .. }));
    move_to(&mut c, &mut s, 22, 22);
    release(&mut c, &mut s);
    assert_eq!(s, State::Idle);
    for r in 0..5 {
        for col in 0..5 {
            let expect = if (r, col) == (2, 2) { Color::black() } else { Color::white() };
            assert_eq!(c.cell_color(r, col), Some(expect));
        }
    }
}

#[test]
fn drag_stroke_fills_the_span() {
    let mut c = grid(5, 5, Pos::new(0, 0));
    let mut s = State::new();
    press(&mut c, &mut s, 2, 2);
    move_to(&mut c, &mut s, 42, 2);
    release(&mut c, &mut s);
    for col in 0..5 {
        assert_eq!(c.cell_color(0, col), Some(Color::black()));
    }
    for r in 1..5 {
        for col in 0..5 {
            assert_eq!(c.cell_color(r, col), Some(Color::white()));
        }
    }
}

#[test]
fn pan_scenario_shifts_anchor_only() {
    let mut c = grid(8, 8, Pos::new(0, 0));
    c.state = StateCanvas::Drag;
    let mut s = State::new();
    press(&mut c, &mut s, 50, 50);
    move_to(&mut c, &mut s, 60, 65);
    assert_eq!(c.pos, Pos::new(10, 15));
    for r in 0..8 {
        for col in 0..8 {
            assert_eq!(c.cell_color(r, col), Some(Color::white()));
        }
    }
    release(&mut c, &mut s);
    assert_eq!(s, State::Idle);
}

#[test]
fn out_of_bounds_press_stays_idle() {
    let mut c = grid(5, 5, Pos::new(0, 0));
    let mut s = State::new();
    press(&mut c, &mut s, 1000, 1000);
    assert_eq!(s, State::Idle);
    press(&mut c, &mut s, -3, 10);
    assert_eq!(s, State::Idle);
}

#[test]
fn release_while_idle_changes_nothing() {
    let mut c = grid(5, 5, Pos::new(0, 0));
    let mut s = State::new();
    release(&mut c, &mut s);
    assert_eq!(s, State::Idle);
    assert_eq!(c.pos, Pos::new(0, 0));
    for r in 0..5 {
        for col in 0..5 {
            assert_eq!(c.cell_color(r, col), Some(Color::white()));
        }
    }
}

#[test]
fn move_while_idle_is_ignored() {
    let mut c = grid(5, 5, Pos::new(0, 0));
    let mut s = State::new();
    move_to(&mut c, &mut s, 22, 22);
    assert_eq!(s, State::Idle);
    assert_eq!(c.cell_color(2, 2), Some(Color::white()));
}

#[test]
fn draw_move_outside_grid_paints_nothing() {
    let mut c = grid(5, 5, Pos::new(0, 0));
    let mut s = State::new();
    press(&mut c, &mut s, 22, 22);
    move_to(&mut c, &mut s, 500, 500);
    for r in 0..5 {
        for col in 0..5 {
            assert_eq!(c.cell_color(r, col), Some(Color::white()));
        }
    }
    assert!(matches!(s, State::Drag { .. }));
}

#[test]
fn secondary_press_does_not_start_drag() {
    let mut c = grid(5, 5, Pos::new(0, 0));
    let mut s = State::new();
    let ev = Event::PointerButton { pos: Pos::new(22, 22), primary: false, pressed: true };
    c.handle_event(&ev, &mut s);
    assert_eq!(s, State::Idle);
}

#[test]
fn other_events_are_ignored() {
    let mut c = grid(5, 5, Pos::new(0, 0));
    let mut s = State::new();
    c.handle_event(&Event::Other, &mut s);
    assert_eq!(s, State::Idle);
    press(&mut c, &mut s, 22, 22);
    c.handle_event(&Event::Other, &mut s);
    assert!(matches!(s, State::Drag { .. }));
}

#[test]
fn render_description_layout() {
    let mut c = grid(2, 2, Pos::new(0, 0));
    c.set_cell(0, 1, Color::black());
    let cmds = c.draw();
    // 4 cell rectangles, 3 vertical lines, 3 horizontal lines
    assert_eq!(cmds.len(), 10);
    assert_eq!(
        cmds[0],
        DrawCmd::FillRect { x: 0, y: 0, w: 10, h: 10, color: Color::white() }
    );
    assert_eq!(
        cmds[1],
        DrawCmd::FillRect { x: 10, y: 0, w: 10, h: 10, color: Color::black() }
    );
    assert_eq!(
        cmds[2],
        DrawCmd::FillRect { x: 0, y: 10, w: 10, h: 10, color: Color::white() }
    );
    let stroke = Stroke::new(1, Color::blue());
    assert_eq!(
        cmds[4],
        DrawCmd::LineSeg { x0: 0, y0: 0, x1: 0, y1: 20, stroke }
    );
    assert_eq!(
        cmds[5],
        DrawCmd::LineSeg { x0: 10, y0: 0, x1: 10, y1: 20, stroke }
    );
    assert_eq!(
        cmds[7],
        DrawCmd::LineSeg { x0: 0, y0: 0, x1: 20, y1: 0, stroke }
    );
    assert_eq!(
        cmds[9],
        DrawCmd::LineSeg { x0: 0, y0: 20, x1: 20, y1: 20, stroke }
    );
}

#[test]
fn set_cell_size_changes_geometry() {
    let mut c = grid(4, 4, Pos::new(0, 0));
    c.set_cell_size(5, 20);
    assert!(c.contains(Pos::new(19, 79)));
    assert!(!c.contains(Pos::new(20, 0)));
    assert_eq!(c.to_cell(Pos::new(12, 45)), Some((2, 2)));
}

#[test]
fn keyboard_pan_during_drag_restarts_stroke() {
    let mut c = grid(5, 5, Pos::new(0, 0));
    let mut s = State::new();
    press(&mut c, &mut s, 22, 22);
    // an arrow-key pan moves the grid away from under the recorded pointer
    c.move_canvas(-100, -100);
    move_to(&mut c, &mut s, -78, -78);
    // the stroke restarts at the current cell instead of crossing the gap
    for r in 0..5 {
        for col in 0..5 {
            let expect = if (r, col) == (2, 2) { Color::black() } else { Color::white() };
            assert_eq!(c.cell_color(r, col), Some(expect));
        }
    }
}

#[test]
fn stroke_uses_the_picked_color() {
    let mut c = grid(5, 5, Pos::new(0, 0));
    let orange = Color::new(255, 128, 0, 255);
    c.color_pick_left_click = orange;
    let mut s = State::new();
    press(&mut c, &mut s, 5, 5);
    move_to(&mut c, &mut s, 35, 5);
    assert_eq!(c.cell_color(0, 0), Some(orange));
    assert_eq!(c.cell_color(0, 3), Some(orange));
}
