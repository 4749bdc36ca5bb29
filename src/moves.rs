use vstd::prelude::*;

verus! {

/// A knight displacement `(dx, dy)`.
#[derive(Clone, Copy, Debug, PartialEq, Eq)]
pub struct Move(pub i8, pub i8);

/// Number of knight displacements in the move table.
pub const MOVE_COUNT: usize = 8;

/// Horizontal offset of the move with the given priority index.
pub open spec fn move_dx(index: int) -> int {
    if index == 0 {
        1
    } else if index == 1 {
        2
    } else if index == 2 {
        2
    } else if index == 3 {
        1
    } else if index == 4 {
        -1
    } else if index == 5 {
        -2
    } else if index == 6 {
        -2
    } else {
        -1
    }
}

/// Vertical offset of the move with the given priority index.
pub open spec fn move_dy(index: int) -> int {
    if index == 0 {
        2
    } else if index == 1 {
        1
    } else if index == 2 {
        -1
    } else if index == 3 {
        -2
    } else if index == 4 {
        -2
    } else if index == 5 {
        -1
    } else if index == 6 {
        1
    } else {
        2
    }
}

/// Whether `(dx, dy)` is one of the eight knight displacements.
pub open spec fn is_knight_offset(dx: int, dy: int) -> bool {
    exists|i: int| 0 <= i < 8 && move_dx(i) == dx && move_dy(i) == dy
}

/// The move table: the knight displacement with priority `index`, in the
/// fixed order that makes the search deterministic.
pub fn knight_move(index: usize) -> (m: Move)
    requires
        index < MOVE_COUNT,
    ensures
        m.0 as int == move_dx(index as int),
        m.1 as int == move_dy(index as int),
{
    match index {
        0 => Move(1, 2),
        1 => Move(2, 1),
        2 => Move(2, -1),
        3 => Move(1, -2),
        4 => Move(-1, -2),
        5 => Move(-2, -1),
        6 => Move(-2, 1),
        _ => Move(-1, 2),
    }
}

} // verus!
