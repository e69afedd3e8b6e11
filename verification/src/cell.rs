//! The state of one grid cell: a settled block's colour, or empty.

use vstd::prelude::*;

verus! {

/// State of a single cell of the board. `Empty` means unoccupied; any
/// other value means the cell holds a settled block of that colour.
/// `Grey` is reserved for border decoration and is never placed by
/// gameplay.
#[derive(Clone, Copy, Debug, PartialEq, Eq, Structural)]
pub enum BlockColour {
    Red,
    Blue,
    Green,
    Cyan,
    Grey,
    Yellow,
    Orange,
    Purple,
    Empty,
}

impl BlockColour {
    /// True iff the cell is unoccupied.
    pub fn is_empty(&self) -> (r: bool)
        ensures
            r == (*self == BlockColour::Empty),
    {
        *self == BlockColour::Empty
    }
}

} // verus!
