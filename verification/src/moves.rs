//! Directions the empty cell can travel on the 4x4 grid.
//!
//! Slots are numbered 0..16 in row-major order: slot `i` lies in row `i / 4`
//! (row 0 at the top) and column `i % 4` (column 0 at the left). A move names
//! the direction the *empty cell* travels; the adjacent tile slides the
//! opposite way into the vacated slot. A move is legal exactly when the
//! neighbouring slot in that direction exists on the grid.

use vstd::prelude::*;

verus! {

/// A direction the empty cell can travel.
#[derive(Clone, Copy, Debug, PartialEq, Eq, Structural)]
pub enum PossibleMoves {
    UP,
    DOWN,
    LEFT,
    RIGHT,
}

/// Row of a slot (0 at the top).
pub open spec fn row_of(slot: int) -> int {
    slot / 4
}

/// Column of a slot (0 at the left).
pub open spec fn col_of(slot: int) -> int {
    slot % 4
}

/// Whether the empty cell, standing at `slot`, can travel in direction `m`.
pub open spec fn legal_at(slot: int, m: PossibleMoves) -> bool {
    match m {
        PossibleMoves::UP => row_of(slot) > 0,
        PossibleMoves::DOWN => row_of(slot) < 3,
        PossibleMoves::LEFT => col_of(slot) > 0,
        PossibleMoves::RIGHT => col_of(slot) < 3,
    }
}

/// The slot the empty cell lands on when it travels from `slot` in
/// direction `m`. Meaningful only when `legal_at(slot, m)` holds.
pub open spec fn target_at(slot: int, m: PossibleMoves) -> int {
    match m {
        PossibleMoves::UP => slot - 4,
        PossibleMoves::DOWN => slot + 4,
        PossibleMoves::LEFT => slot - 1,
        PossibleMoves::RIGHT => slot + 1,
    }
}

/// The direction that undoes `m`.
pub open spec fn inverse_move(m: PossibleMoves) -> PossibleMoves {
    match m {
        PossibleMoves::UP => PossibleMoves::DOWN,
        PossibleMoves::DOWN => PossibleMoves::UP,
        PossibleMoves::LEFT => PossibleMoves::RIGHT,
        PossibleMoves::RIGHT => PossibleMoves::LEFT,
    }
}

/// Travelling in a legal direction lands on a slot of the grid, from which
/// the opposite direction is legal and leads back to the start.
pub proof fn lemma_target_inverse(slot: int, m: PossibleMoves)
    requires
        0 <= slot < 16,
        legal_at(slot, m),
    ensures
        0 <= target_at(slot, m) < 16,
        target_at(slot, m) != slot,
        legal_at(target_at(slot, m), inverse_move(m)),
        target_at(target_at(slot, m), inverse_move(m)) == slot,
{
}

/// The empty cell can travel up exactly when it is not in the top row.
pub fn can_move_up(zero_field: u64) -> (r: bool)
    requires
        zero_field < 16,
    ensures
        r == legal_at(zero_field as int, PossibleMoves::UP),
{
    zero_field / 4 > 0
}

/// The empty cell can travel down exactly when it is not in the bottom row.
pub fn can_move_down(zero_field: u64) -> (r: bool)
    requires
        zero_field < 16,
    ensures
        r == legal_at(zero_field as int, PossibleMoves::DOWN),
{
    zero_field / 4 < 3
}

/// The empty cell can travel left exactly when it is not in the leftmost
/// column.
pub fn can_move_left(zero_field: u64) -> (r: bool)
    requires
        zero_field < 16,
    ensures
        r == legal_at(zero_field as int, PossibleMoves::LEFT),
{
    zero_field % 4 > 0
}

/// The empty cell can travel right exactly when it is not in the rightmost
/// column.
pub fn can_move_right(zero_field: u64) -> (r: bool)
    requires
        zero_field < 16,
    ensures
        r == legal_at(zero_field as int, PossibleMoves::RIGHT),
{
    zero_field % 4 < 3
}

/// The slot above the empty cell.
pub fn get_up_field(zero_field: u64) -> (r: u64)
    requires
        zero_field < 16,
        legal_at(zero_field as int, PossibleMoves::UP),
    ensures
        r == target_at(zero_field as int, PossibleMoves::UP),
{
    zero_field - 4
}

/// The slot below the empty cell.
pub fn get_down_field(zero_field: u64) -> (r: u64)
    requires
        zero_field < 16,
        legal_at(zero_field as int, PossibleMoves::DOWN),
    ensures
        r == target_at(zero_field as int, PossibleMoves::DOWN),
{
    zero_field + 4
}

/// The slot to the left of the empty cell.
pub fn get_left_field(zero_field: u64) -> (r: u64)
    requires
        zero_field < 16,
        legal_at(zero_field as int, PossibleMoves::LEFT),
    ensures
        r == target_at(zero_field as int, PossibleMoves::LEFT),
{
    zero_field - 1
}

/// The slot to the right of the empty cell.
pub fn get_right_field(zero_field: u64) -> (r: u64)
    requires
        zero_field < 16,
        legal_at(zero_field as int, PossibleMoves::RIGHT),
    ensures
        r == target_at(zero_field as int, PossibleMoves::RIGHT),
{
    zero_field + 1
}

} // verus!
