//! The primary interaction mode of the canvas.
//!
//! The machine is `Idle` until a primary-button press lands inside the grid;
//! it then becomes `Drag`, carrying the scratch state that only a drag has:
//! the pan reference point and the last processed pointer position. Any
//! button release returns it to `Idle`, which discards the scratch state.

use vstd::prelude::*;
use crate::geometry::Pos;

verus! {

/// The top-level interaction state. `Drag` carries its scratch fields so
/// that they cannot exist, stale, while the machine is idle.
#[derive(Clone, Copy, PartialEq, Eq, Structural, Debug)]
pub enum State {
    Idle,
    Drag { drag_anchor: Pos, last_pointer: Pos },
}

impl Default for State {
    fn default() -> (s: State)
        ensures
            s == State::Idle,
    {
        State::Idle
    }
}

impl State {
    pub fn new() -> (s: State)
        ensures
            s == State::Idle,
    {
        State::Idle
    }
}

} // verus!
