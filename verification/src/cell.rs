use vstd::prelude::*;

verus! {

/// One square of the puzzle grid: either blank or showing how many of its four
/// sides belong to the loop.
#[derive(Debug, Clone, Copy, PartialEq, Eq, Hash, Structural)]
pub enum Cell {
    Empty,
    Clue(u8),
}

impl Cell {
    /// Builds a clue cell; clue values are 0 through 3.
    pub fn clue(value: u8) -> (c: Self)
        requires
            value <= 3,
        ensures
            c == Cell::Clue(value),
    {
        Cell::Clue(value)
    }

    /// The clue shown in this cell, if any.
    pub fn as_clue(self) -> (r: Option<u8>)
        ensures
            r == (match self {
                Cell::Clue(n) => Some(n),
                Cell::Empty => None,
            }),
    {
        match self {
            Cell::Clue(n) => Some(n),
            Cell::Empty => None,
        }
    }
}

} // verus!
