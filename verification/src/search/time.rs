//! The limits a search runs under, in the units the search counts in: zero
//! stands for "no limit".

use vstd::prelude::*;

verus! {

/// Limits of one search. A zero depth, node count, clock or move time means
/// that limit is absent.
#[derive(Debug, Clone)]
pub struct SearchLimits {
    pub depth: i32,
    pub nodes: u64,
    /// Remaining milliseconds of each side's clock.
    pub time: [u64; 2],
    pub inc: [u64; 2],
    pub movestogo: i32,
    pub movetime: u64,
    pub infinite: bool,
    pub ponder_mode: bool,
    pub search_moves: Vec<String>,
    /// Milliseconds kept back from each move for communication.
    pub move_overhead: u64,
}

impl SearchLimits {
    /// No limits at all.
    pub fn new() -> (l: SearchLimits)
        ensures
            l.depth == 0 && l.nodes == 0 && l.movestogo == 0 && l.movetime == 0,
            l.time@ == seq![0u64, 0u64],
            l.inc@ == seq![0u64, 0u64],
            !l.infinite && !l.ponder_mode,
            l.search_moves@.len() == 0,
            l.move_overhead == 0,
    {
        SearchLimits {
            depth: 0,
            nodes: 0,
            time: [0, 0],
            inc: [0, 0],
            movestogo: 0,
            movetime: 0,
            infinite: false,
            ponder_mode: false,
            search_moves: Vec::new(),
            move_overhead: 0,
        }
    }

    /// Whether either side's clock is running, so that the search budgets
    /// its time from the clocks.
    pub fn use_time_management(&self) -> (r: bool)
        ensures
            r == (self.time[0] != 0 || self.time[1] != 0),
    {
        self.time[0] != 0 || self.time[1] != 0
    }
}

} // verus!
