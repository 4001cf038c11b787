//! The parameters of a run. The library reads them and never sets them.

use vstd::prelude::*;

verus! {

/// What a deployment fixes before a run starts.
#[derive(Clone, Copy, Debug)]
pub struct Config {
    /// Number of columns of every state.
    pub width: usize,
    /// Number of rows of every state.
    pub height: usize,
    /// Number of iterations of one run.
    pub updates_per_run: usize,
    /// Chance in a hundred that a freshly seeded cell is alive.
    pub populate_chance: usize,
    /// Side of a drawn cell, in units of the drawing.
    pub cell_scale: usize,
    /// How long each frame of the animation is shown, in milliseconds.
    pub frame_duration_ms: usize,
    /// How long the animation waits before its first frame, in milliseconds.
    pub start_delay_ms: usize,
}

impl Config {
    /// A configuration is usable when the board it describes is not empty.
    pub open spec fn valid(&self) -> bool {
        self.width > 0 && self.height > 0
    }

    /// Tells whether the configuration is usable.
    pub fn is_valid(&self) -> (ok: bool)
        ensures
            ok == self.valid(),
    {
        self.width > 0 && self.height > 0
    }
}

} // verus!
