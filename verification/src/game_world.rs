//! The registry of the levels generated so far and of the active player.

use vstd::prelude::*;
use crate::error::DungeonError;
use crate::grid::Grid;

verus! {

/// The levels of a session in the order of their depth, and the identifier
/// of the entity that plays, if one does.
///
/// The grid at index `l` is level `l`. Levels are appended and never
/// removed, so an index that was handed out stays valid.
#[derive(Debug)]
pub struct GameWorld {
    pub grids: Vec<Grid>,
    pub player: Option<u64>,
}

impl GameWorld {
    /// A world without levels and without a player.
    pub fn new() -> (world: GameWorld)
        ensures
            world.grids@.len() == 0,
            world.player is None,
    {
        GameWorld { grids: Vec::new(), player: None }
    }

    /// How many levels the world holds.
    pub fn level_count(&self) -> (count: usize)
        ensures
            count == self.grids@.len(),
    {
        self.grids.len()
    }

    /// Appends `grid` as the next level and returns its index.
    pub fn add_grid(&mut self, grid: Grid) -> (level: usize)
        ensures
            level == old(self).grids@.len(),
            final(self).grids@ == old(self).grids@.push(grid),
            final(self).player == old(self).player,
    {
        let level = self.grids.len();
        self.grids.push(grid);
        level
    }

    /// The grid of level `level`, or `IndexOutOfRange` where the world
    /// holds no such level.
    pub fn grid(&self, level: usize) -> (found: Result<&Grid, DungeonError>)
        ensures
            level < self.grids@.len() ==> found == Ok::<&Grid, DungeonError>(&self.grids@[level as int]),
            level >= self.grids@.len() ==> found == Err::<&Grid, DungeonError>(
                DungeonError::IndexOutOfRange,
            ),
    {
        if level < self.grids.len() {
            Ok(&self.grids[level])
        } else {
            Err(DungeonError::IndexOutOfRange)
        }
    }

    /// The identifier of the active player, if there is one.
    pub fn player(&self) -> (player: Option<u64>)
        ensures
            player == self.player,
    {
        self.player
    }

    /// Makes `player` the active player, or none with `None`. The levels
    /// stay as they are.
    pub fn set_player(&mut self, player: Option<u64>)
        ensures
            final(self).player == player,
            final(self).grids@ == old(self).grids@,
    {
        self.player = player;
    }
}

} // verus!
