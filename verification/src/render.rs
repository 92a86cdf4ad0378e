//! The integer part of the cell colouring: which accent an unclassified
//! cell takes.

use vstd::prelude::*;

verus! {

/// Number of cycling accents available to unclassified cells.
pub const ACCENT_COUNT: usize = 6;

/// Which accent an unclassified cell takes: the palette drifts with the
/// cell's age, with its position in coarse bands, and every seven
/// generations.
pub open spec fn accent(age: int, x: int, y: int, generation: int) -> int {
    (age / 7 + x / 13 + y / 17 + (generation / 7) % 6) % 6
}

/// Index of the accent an unrecognized cell is drawn with.
pub fn accent_index(age: usize, x: usize, y: usize, generation: u64) -> (index: usize)
    ensures
        index == accent(age as int, x as int, y as int, generation as int),
        index < ACCENT_COUNT,
{
    let phase = ((generation / 7) % 6) as usize;
    (age / 7 + x / 13 + y / 17 + phase) % ACCENT_COUNT
}

} // verus!
