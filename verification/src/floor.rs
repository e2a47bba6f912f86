//! One persisted level of the dungeon: its grid, its kind and its depth.

use vstd::prelude::*;
use vstd::std_specs::cmp::PartialEqSpecImpl;
use crate::grid::Grid;

verus! {

/// What kind of level a floor is. The kind has no part in generating the
/// grid.
#[derive(Copy, Clone, PartialEq, Eq, Debug, Hash, Structural)]
pub enum FloorType {
    Dungeon,
    Town,
    BossRoom,
}

/// A grid together with its kind and its depth in the dungeon.
#[derive(Debug, Hash)]
pub struct Floor {
    pub grid: Grid,
    pub floor_type: FloorType,
    pub level: u32,
}

impl Clone for Floor {
    fn clone(&self) -> (copy: Floor)
        ensures
            copy.grid@ == self.grid@,
            copy.floor_type == self.floor_type,
            copy.level == self.level,
    {
        Floor { grid: self.grid.clone(), floor_type: self.floor_type, level: self.level }
    }
}

impl PartialEq for Floor {
    fn eq(&self, other: &Floor) -> (same: bool) {
        self.grid == other.grid && self.floor_type == other.floor_type && self.level == other.level
    }
}

impl PartialEqSpecImpl for Floor {
    open spec fn obeys_eq_spec() -> bool {
        true
    }

    open spec fn eq_spec(&self, other: &Floor) -> bool {
        self.grid@ == other.grid@ && self.floor_type == other.floor_type && self.level
            == other.level
    }
}

impl Eq for Floor {

}

} // verus!
