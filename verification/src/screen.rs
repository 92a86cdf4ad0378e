//! Board dimensions for the active viewport.

use vstd::prelude::*;

use crate::life::{Board, Life};

verus! {

/// Fewest columns a board gets, however narrow the viewport.
pub const MIN_COLUMNS: usize = 48;

/// Fewest rows a board gets, however short the viewport.
pub const MIN_ROWS: usize = 32;

/// Most columns a board gets, however wide the viewport.
pub const MAX_COLUMNS: usize = 320;

/// Most rows a board gets, however tall the viewport.
pub const MAX_ROWS: usize = 200;

/// A board is rebuilt once a dimension differs by at least this many cells.
pub const RESIZE_HYSTERESIS_CELLS: usize = 4;

pub open spec fn distance(a: int, b: int) -> int {
    if a < b {
        b - a
    } else {
        a - b
    }
}

pub open spec fn clamped(cells: int, minimum: int, maximum: int) -> int {
    if cells < minimum {
        minimum
    } else if cells > maximum {
        maximum
    } else {
        cells
    }
}

/// Whether a board of `width` by `height` is materially off from the
/// dimensions `columns` by `rows` that the viewport calls for.
pub open spec fn needs_resize(width: int, height: int, columns: int, rows: int) -> bool {
    distance(width, columns) >= RESIZE_HYSTERESIS_CELLS || distance(height, rows)
        >= RESIZE_HYSTERESIS_CELLS
}

/// Bounds the number of cells that fit along one viewport extent.
pub fn clamp_cells(cells: usize, minimum: usize, maximum: usize) -> (count: usize)
    requires
        minimum <= maximum,
    ensures
        count == clamped(cells as int, minimum as int, maximum as int),
        minimum <= count <= maximum,
{
    if cells < minimum {
        minimum
    } else if cells > maximum {
        maximum
    } else {
        cells
    }
}

fn abs_diff(a: usize, b: usize) -> (d: usize)
    ensures
        d == distance(a as int, b as int),
{
    if a < b {
        b - a
    } else {
        a - b
    }
}

/// True when the viewport's board dimensions `columns` by `rows` differ
/// materially from the current board's.
pub fn board_needs_resize(life: &Life, columns: usize, rows: usize) -> (resize: bool)
    ensures
        resize == needs_resize(life@.width as int, life@.height as int, columns as int, rows as int),
{
    abs_diff(life.width(), columns) >= RESIZE_HYSTERESIS_CELLS || abs_diff(life.height(), rows)
        >= RESIZE_HYSTERESIS_CELLS
}

/// The bounded cell count lies within the bounds, leaves a count already
/// within them unchanged, and never reverses the order of two counts.
pub proof fn lemma_clamp_bounds(a: int, b: int, minimum: int, maximum: int)
    requires
        minimum <= maximum,
    ensures
        minimum <= clamped(a, minimum, maximum) <= maximum,
        minimum <= a <= maximum ==> clamped(a, minimum, maximum) == a,
        a <= b ==> clamped(a, minimum, maximum) <= clamped(b, minimum, maximum),
        clamped(clamped(a, minimum, maximum), minimum, maximum) == clamped(a, minimum, maximum),
{
}

/// A board needs rebuilding exactly when its width or its height is at
/// least four cells off the viewport's, in either direction; so the
/// decision is the same with the board and the viewport swapped.
pub proof fn lemma_resize_is_symmetric(width: int, height: int, columns: int, rows: int)
    ensures
        needs_resize(width, height, columns, rows) <==> (width - columns >= 4 || columns - width >= 4
            || height - rows >= 4 || rows - height >= 4),
        needs_resize(width, height, columns, rows) == needs_resize(columns, rows, width, height),
{
}

/// A board made for the viewport's dimensions does not need a resize until
/// those dimensions move by the hysteresis margin.
pub proof fn lemma_matching_board_stays(board: Board, columns: int, rows: int)
    requires
        distance(board.width as int, columns) < RESIZE_HYSTERESIS_CELLS,
        distance(board.height as int, rows) < RESIZE_HYSTERESIS_CELLS,
    ensures
        !needs_resize(board.width as int, board.height as int, columns, rows),
        !needs_resize(board.width as int, board.height as int, board.width as int, board.height as int),
{
}

} // verus!
