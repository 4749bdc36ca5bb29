use vstd::prelude::*;

use crate::moves::Move;

verus! {

/// A cell of the board, as signed coordinates `(x, y)`.
#[derive(Clone, Copy, Debug)]
pub struct Position(pub i16, pub i16);

impl Position {
    /// The coordinates as mathematical integers.
    pub open spec fn view_pair(self) -> (int, int) {
        (self.0 as int, self.1 as int)
    }

    /// The position reached from `self` by the displacement `dp`.
    pub fn calc_move(&self, dp: &Move) -> (r: Position)
        requires
            i16::MIN <= self.0 + dp.0 <= i16::MAX,
            i16::MIN <= self.1 + dp.1 <= i16::MAX,
        ensures
            r.0 == self.0 + dp.0,
            r.1 == self.1 + dp.1,
    {
        let new_x = self.0 + dp.0 as i16;
        let new_y = self.1 + dp.1 as i16;
        Position(new_x, new_y)
    }

    /// The coordinates as a tuple.
    pub fn to_tuple(&self) -> (r: (i16, i16))
        ensures
            r == (self.0, self.1),
    {
        (self.0, self.1)
    }
}

} // verus!
