//! An interactive pixel-grid drawing surface.
//!
//! The library is the canvas interaction engine: a grid of colorable cells
//! with screen-space geometry, a line rasterizer that fills every cell a
//! stroke touches, and the finite-state machine that turns pointer events
//! into grid mutations or panning. A UI host feeds events in and reads the
//! render description back; all windowing and widget work stays outside.

pub mod canvas;
pub mod geometry;
pub mod pixel;
pub mod raster;
pub mod state;
