//! Tunable integer constants shared across the crate: the palette's fixed
//! colours, history depth, zoom bounds, and the per-frame tick cap.

use vstd::prelude::*;

verus! {

/// Background colour (R, G, B): a deep navy.
pub const BG_COLOR: [u8; 3] = [10, 12, 22];

/// Grid-line colour (R, G, B), just above the background.
pub const GRID_COLOR: [u8; 3] = [26, 30, 46];

/// Number of generations kept for step-back, so memory stays bounded on
/// long-running sessions.
pub const MAX_HISTORY: usize = 256;

/// Most zoomed-in level: pixel size per world cell is `1 << -scale`.
pub const MIN_SCALE: i32 = -8;

/// Most zoomed-out level (1:1).
pub const MAX_SCALE: i32 = 0;

/// Zoom level a fresh camera starts at.
pub const INITIAL_SCALE: i32 = -4;

/// Safety cap on ticks run in a single animation frame.
pub const MAX_TICKS_PER_FRAME: u32 = 1024;

/// Simulation speed is a power of two ticks per second; this is the
/// starting exponent (8 ticks per second).
pub const DEFAULT_SPEED_EXPONENT: i32 = 3;

/// Slowest speed, as a power of two: 1 tick per 32 seconds.
pub const MIN_SPEED_EXPONENT: i32 = -5;

/// Fastest speed, as a power of two: 4096 ticks per second.
pub const MAX_SPEED_EXPONENT: i32 = 12;

} // verus!
