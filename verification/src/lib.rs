//! A solver for the 15-puzzle: a 4x4 sliding-tile board with one empty
//! cell. The library represents board configurations as values, enumerates
//! the legal moves of the empty cell, and finds a solution by breadth-first
//! search over the state graph with visited-state deduplication and
//! predecessor tracking.

use vstd::prelude::*;

pub mod board;
pub mod moves;
pub mod parity;
pub mod search;

verus! {

/// Adds two machine integers.
pub fn add(left: usize, right: usize) -> (r: usize)
    requires
        left + right <= usize::MAX,
    ensures
        r == left + right,
{
    left + right
}

} // verus!
