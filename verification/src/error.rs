//! The failures that the library reports.

use vstd::prelude::*;

verus! {

#[derive(Copy, Clone, PartialEq, Eq, Debug, Hash, Structural)]
pub enum DungeonError {
    /// A room-size range is empty or reaches beyond the grid.
    InvalidConfiguration,
    /// Stairs were to be placed on a level without a single `Floor` cell.
    NoFloorCellAvailable,
    /// A level was looked up under an index that the world does not hold.
    IndexOutOfRange,
}

} // verus!
