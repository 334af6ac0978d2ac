use vstd::prelude::*;

verus! {

/// The options a game is dealt with.
#[derive(Clone, Copy, Debug, PartialEq, Eq, Structural)]
pub struct Settings {
    /// Number of tableau columns.
    pub n_columns: usize,
    /// Number of cards turned from the draw pile at a time (typically 1, 2 or 3).
    pub draw_rate: usize,
}

impl Default for Settings {
    fn default() -> (r: Settings)
        ensures
            r == (Settings { n_columns: 7, draw_rate: 3 }),
    {
        Settings { n_columns: 7, draw_rate: 3 }
    }
}

} // verus!
