// The knobs the engine runs with.
use vstd::prelude::*;
use crate::clock::TimeControl;
use crate::search::DEFAULT_DEPTH;
use crate::transposition::TranspositionTable;

verus! {

/// How the engine is set up to play.
#[derive(Clone, Copy)]
pub struct Settings {
    /// How deep the search runs after every move.
    pub search_depth: u32,
    /// How much memory the transposition table gets.
    pub table_megabytes: usize,
    /// Whether an opening book answers the first moves of a game.
    pub use_opening_book: bool,
    /// What bounds a move the engine plays: a depth, a time per move, or a game clock.
    pub time_control: TimeControl,
}

impl Default for Settings {
    /// The default depth, the default table, the book on, and a depth rather than a clock.
    fn default() -> (r: Settings)
        ensures
            r.search_depth == DEFAULT_DEPTH,
            r.table_megabytes == TranspositionTable::DEFAULT_MEGABYTES,
            r.use_opening_book,
            r.time_control == TimeControl::Depth,
    {
        Settings {
            search_depth: DEFAULT_DEPTH,
            table_megabytes: TranspositionTable::DEFAULT_MEGABYTES,
            use_opening_book: true,
            time_control: TimeControl::Depth,
        }
    }
}

} // verus!
