use vstd::prelude::*;

verus! {

/// What the player (or the solver) has decided about one edge of the grid.
#[derive(Debug, Clone, Copy, PartialEq, Eq, Hash, Structural)]
pub enum EdgeState {
    Unset,
    Loop,
    Excluded,
}

impl Default for EdgeState {
    fn default() -> (s: Self)
        ensures
            s == EdgeState::Unset,
    {
        EdgeState::Unset
    }
}

/// Identifies an edge of the grid: horizontal between vertices (x, y) and
/// (x+1, y), or vertical between (x, y) and (x, y+1).
#[derive(Debug, Clone, Copy, PartialEq, Eq, Hash, Structural)]
pub enum EdgeId {
    H(usize, usize),
    V(usize, usize),
}

} // verus!
