use vstd::prelude::*;

use crate::constants::BOARD_SIZE;

verus! {

/// A signed offset between board indices: one cell along a row or a column.
pub struct Step(pub isize);

impl Step {
    /// One cell to the right.
    pub fn right() -> (r: Step)
        ensures
            r.0 == 1,
    {
        Step(1)
    }

    /// One cell to the left.
    pub fn left() -> (r: Step)
        ensures
            r.0 == -1,
    {
        Step(-1)
    }

    /// One row down.
    pub fn down() -> (r: Step)
        ensures
            r.0 == BOARD_SIZE,
    {
        Step(BOARD_SIZE as isize)
    }

    /// One row up.
    pub fn up() -> (r: Step)
        ensures
            r.0 == -BOARD_SIZE,
    {
        Step(-(BOARD_SIZE as isize))
    }

    /// The index `index + self.0`, unless it falls outside `usize`.
    pub fn apply(&self, index: usize) -> (r: Option<usize>)
        ensures
            r == if 0 <= index + self.0 <= usize::MAX {
                Some((index + self.0) as usize)
            } else {
                None::<usize>
            },
    {
        index.checked_add_signed(self.0)
    }
}

} // verus!
