//! The place of a cell in the grid.

use vstd::prelude::*;

verus! {

/// A row and a column of the grid, both counted from zero, the row from the
/// top and the column from the left.
#[derive(Clone, Copy, Debug, PartialEq, Eq, Hash, Structural)]
pub struct Coordinate {
    pub row: u8,
    pub column: u8,
}

impl Coordinate {
    /// The coordinate lies on the grid.
    pub open spec fn on_grid(self) -> bool {
        self.row < 4 && self.column < 4
    }
}

} // verus!
