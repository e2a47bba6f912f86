//! Placing the two stairs of a level where one can be reached from the other.

use vstd::prelude::*;
use rand::rngs::StdRng;
use crate::dice::{roll, seeded_rng};
use crate::error::DungeonError;
use crate::grid::{
    cell_index, in_bounds, lemma_with_tile, tile_at, with_tile, Grid, CELL_COUNT, GRID_SIZE,
};
use crate::reach::{
    adjacent, enterable, lemma_reachable_both_ways, lemma_reachable_from_itself,
    lemma_reachable_step, lemma_reachable_when_opened, reachable,
};
use crate::tiles::TileType;

verus! {

/// How many random cells are tried for each of the two stairs before the
/// cells are searched in order.
pub const MAX_STAIR_ATTEMPTS: u32 = 1000;

/// Whether some cell of the level holds `Floor`.
pub open spec fn has_floor(cells: Seq<TileType>) -> bool {
    exists|x: int, y: int| in_bounds(x, y) && #[trigger] tile_at(cells, x, y) == TileType::Floor
}

/// Whether the stairs may stand on `up` and `down`: two different cells of
/// the grid, `up` a `Floor` cell that is reachable from `down`.
pub open spec fn stairs_fit(cells: Seq<TileType>, up: (int, int), down: (int, int)) -> bool {
    &&& in_bounds(up.0, up.1)
    &&& in_bounds(down.0, down.1)
    &&& up != down
    &&& tile_at(cells, up.0, up.1) == TileType::Floor
    &&& reachable(cells, up, down)
}

/// The level with `UpStairs` written on `up` and `DownStairs` on `down`.
pub open spec fn with_stairs(cells: Seq<TileType>, up: (int, int), down: (int, int)) -> Seq<
    TileType,
> {
    with_tile(with_tile(cells, up.0, up.1, TileType::UpStairs), down.0, down.1, TileType::DownStairs)
}

/// Whether no cell of the level holds a stair.
pub open spec fn without_stairs(cells: Seq<TileType>) -> bool {
    forall|x: int, y: int|
        in_bounds(x, y) ==> #[trigger] tile_at(cells, x, y) != TileType::UpStairs && tile_at(
            cells,
            x,
            y,
        ) != TileType::DownStairs
}

/// A `Floor` cell is reachable from each of the cells around it.
pub proof fn lemma_floor_reachable_from_neighbor(
    cells: Seq<TileType>,
    up: (int, int),
    next: (int, int),
)
    requires
        in_bounds(up.0, up.1),
        in_bounds(next.0, next.1),
        tile_at(cells, up.0, up.1) == TileType::Floor,
        adjacent(next, up),
    ensures
        stairs_fit(cells, up, next),
{
    lemma_reachable_from_itself(cells, next);
    lemma_reachable_step(cells, next, up, next);
}

/// After the stairs are written on two cells that fit, on a level that had
/// no stairs, the level holds `UpStairs` on `up` alone and `DownStairs` on
/// `down` alone, and each stair is reachable from the other.
pub proof fn lemma_stairs_placed(cells: Seq<TileType>, up: (int, int), down: (int, int))
    requires
        cells.len() == CELL_COUNT,
        stairs_fit(cells, up, down),
        without_stairs(cells),
    ensures
        forall|x: int, y: int|
            in_bounds(x, y) ==> (#[trigger] tile_at(with_stairs(cells, up, down), x, y)
                == TileType::UpStairs <==> (x, y) == up),
        forall|x: int, y: int|
            in_bounds(x, y) ==> (#[trigger] tile_at(with_stairs(cells, up, down), x, y)
                == TileType::DownStairs <==> (x, y) == down),
        reachable(with_stairs(cells, up, down), up, down),
        reachable(with_stairs(cells, up, down), down, up),
{
    let first = with_tile(cells, up.0, up.1, TileType::UpStairs);
    let after = with_stairs(cells, up, down);
    lemma_with_tile(cells, up.0, up.1, TileType::UpStairs);
    lemma_with_tile(first, down.0, down.1, TileType::DownStairs);
    assert forall|x: int, y: int| in_bounds(x, y) implies (#[trigger] tile_at(after, x, y)
        == TileType::UpStairs <==> (x, y) == up) by {
        assert(tile_at(cells, x, y) != TileType::UpStairs);
        assert(tile_at(first, x, y) == if x == up.0 && y == up.1 {
            TileType::UpStairs
        } else {
            tile_at(cells, x, y)
        });
    }
    assert forall|x: int, y: int| in_bounds(x, y) implies (#[trigger] tile_at(after, x, y)
        == TileType::DownStairs <==> (x, y) == down) by {
        assert(tile_at(cells, x, y) != TileType::DownStairs);
        assert(tile_at(first, x, y) == if x == up.0 && y == up.1 {
            TileType::UpStairs
        } else {
            tile_at(cells, x, y)
        });
    }
    lemma_stairs_stay_connected(cells, up, down);
}

/// Writing the stairs on two cells that fit leaves each stair reachable
/// from the other.
pub proof fn lemma_stairs_stay_connected(cells: Seq<TileType>, up: (int, int), down: (int, int))
    requires
        cells.len() == CELL_COUNT,
        stairs_fit(cells, up, down),
    ensures
        reachable(with_stairs(cells, up, down), up, down),
        reachable(with_stairs(cells, up, down), down, up),
{
    let first = with_tile(cells, up.0, up.1, TileType::UpStairs);
    let after = with_stairs(cells, up, down);
    lemma_with_tile(cells, up.0, up.1, TileType::UpStairs);
    lemma_with_tile(first, down.0, down.1, TileType::DownStairs);
    assert forall|c: (int, int)| enterable(cells, c) implies #[trigger] enterable(after, c) by {
        assert(tile_at(first, c.0, c.1) == if c.0 == up.0 && c.1 == up.1 {
            TileType::UpStairs
        } else {
            tile_at(cells, c.0, c.1)
        });
        assert(tile_at(after, c.0, c.1) == if c.0 == down.0 && c.1 == down.1 {
            TileType::DownStairs
        } else {
            tile_at(first, c.0, c.1)
        });
    }
    lemma_reachable_when_opened(cells, after, up, down);
    assert(tile_at(after, down.0, down.1) == TileType::DownStairs);
    lemma_reachable_both_ways(after, up, down);
}

impl Grid {
    /// Whether some cell of the level holds `Floor`.
    pub fn contains_floor(&self) -> (found: bool)
        ensures
            found == has_floor(self@),
    {
        let first = self.find_tile(TileType::Floor);
        proof {
            self.lemma_view_len();
            match first {
                Some((x, y)) => {
                    assert(tile_at(self@, x as int, y as int) == TileType::Floor);
                },
                None => {
                    assert forall|x: int, y: int| in_bounds(x, y) implies #[trigger] tile_at(
                        self@,
                        x,
                        y,
                    ) != TileType::Floor by {
                        assert(self@[cell_index(x, y)] != TileType::Floor);
                    }
                },
            }
        }
        first.is_some()
    }

    /// Whether the stairs may stand on `up` and `down`: two different cells
    /// of the grid, `up` a `Floor` cell that is reachable from `down`.
    pub fn stairs_may_stand(&self, up: (usize, usize), down: (usize, usize)) -> (fit: bool)
        ensures
            fit == stairs_fit(self@, (up.0 as int, up.1 as int), (down.0 as int, down.1 as int)),
    {
        if up.0 >= GRID_SIZE || up.1 >= GRID_SIZE || down.0 >= GRID_SIZE || down.1 >= GRID_SIZE {
            return false;
        }
        if up.0 == down.0 && up.1 == down.1 {
            return false;
        }
        self.tile(up.0, up.1) == TileType::Floor && self.is_a_reachable_from_b(up, down)
    }

    /// Writes `UpStairs` on `up` and `DownStairs` on `down`, two cells of
    /// the grid, over whatever they held.
    pub fn write_stairs(&mut self, up: (usize, usize), down: (usize, usize))
        requires
            in_bounds(up.0 as int, up.1 as int),
            in_bounds(down.0 as int, down.1 as int),
        ensures
            final(self)@ == with_stairs(
                old(self)@,
                (up.0 as int, up.1 as int),
                (down.0 as int, down.1 as int),
            ),
    {
        self.put(up.0, up.1, TileType::UpStairs);
        self.put(down.0, down.1, TileType::DownStairs);
    }

    /// A `Floor` cell for the up stairs: the first of up to
    /// `MAX_STAIR_ATTEMPTS` random cells that holds `Floor`, else the first
    /// `Floor` cell in row-major order, if the level has one.
    fn pick_up_stairs(&self, rng: &mut StdRng) -> (up: Option<(usize, usize)>)
        ensures
            up is Some <==> has_floor(self@),
            up matches Some(c) ==> in_bounds(c.0 as int, c.1 as int) && tile_at(
                self@,
                c.0 as int,
                c.1 as int,
            ) == TileType::Floor,
    {
        let mut attempts: u32 = 0;
        while attempts < MAX_STAIR_ATTEMPTS
            invariant
                attempts <= MAX_STAIR_ATTEMPTS,
            decreases MAX_STAIR_ATTEMPTS - attempts,
        {
            let x = roll(rng, 0, GRID_SIZE);
            let y = roll(rng, 0, GRID_SIZE);
            if self.tile(x, y) == TileType::Floor {
                return Some((x, y));
            }
            attempts += 1;
        }
        let first = self.find_tile(TileType::Floor);
        proof {
            self.lemma_view_len();
            if first is None {
                assert forall|x: int, y: int| in_bounds(x, y) implies #[trigger] tile_at(
                    self@,
                    x,
                    y,
                ) != TileType::Floor by {
                    assert(self@[cell_index(x, y)] != TileType::Floor);
                }
            }
        }
        first
    }

    /// A cell for the down stairs that fits `up`, a `Floor` cell of the
    /// grid: the first of up to `MAX_STAIR_ATTEMPTS` random cells that fits,
    /// else the first cell in row-major order that fits. One always does.
    fn pick_down_stairs(&self, rng: &mut StdRng, up: (usize, usize)) -> (down: (usize, usize))
        requires
            in_bounds(up.0 as int, up.1 as int),
            tile_at(self@, up.0 as int, up.1 as int) == TileType::Floor,
        ensures
            stairs_fit(self@, (up.0 as int, up.1 as int), (down.0 as int, down.1 as int)),
    {
        let mut attempts: u32 = 0;
        while attempts < MAX_STAIR_ATTEMPTS
            invariant
                attempts <= MAX_STAIR_ATTEMPTS,
            decreases MAX_STAIR_ATTEMPTS - attempts,
        {
            let x = roll(rng, 0, GRID_SIZE);
            let y = roll(rng, 0, GRID_SIZE);
            if self.stairs_may_stand(up, (x, y)) {
                return (x, y);
            }
            attempts += 1;
        }
        let ghost here = (up.0 as int, up.1 as int);
        let ghost beside = if up.0 + 1 < GRID_SIZE {
            (up.0 + 1, up.1 as int)
        } else {
            (up.0 - 1, up.1 as int)
        };
        proof {
            lemma_floor_reachable_from_neighbor(self@, here, beside);
        }
        let mut k: usize = 0;
        loop
            invariant
                in_bounds(up.0 as int, up.1 as int),
                here == (up.0 as int, up.1 as int),
                in_bounds(beside.0, beside.1),
                stairs_fit(self@, here, beside),
                k <= cell_index(beside.0, beside.1),
            decreases CELL_COUNT - k,
        {
            let candidate = (k % GRID_SIZE, k / GRID_SIZE);
            if self.stairs_may_stand(up, candidate) {
                return candidate;
            }
            assert(k != cell_index(beside.0, beside.1)) by {
                if k == cell_index(beside.0, beside.1) {
                    assert(candidate.0 == beside.0 && candidate.1 == beside.1);
                }
            }
            k += 1;
        }
    }

    /// Places the two stairs, with random choices from the sequence that
    /// `seed` starts: `UpStairs` on a `Floor` cell, `DownStairs` on another
    /// cell from which the first is reachable. Returns the two cells, the
    /// up stairs first.
    ///
    /// Fails, and leaves the level as it is, exactly when no cell holds
    /// `Floor`. Which cells are chosen is not fixed here; whichever are,
    /// they fit and the two stairs are written on them.
    pub fn place_stairs(&mut self, seed: u64) -> (result: Result<
        ((usize, usize), (usize, usize)),
        DungeonError,
    >)
        ensures
            result is Ok <==> has_floor(old(self)@),
            result matches Err(e) ==> e == DungeonError::NoFloorCellAvailable && final(self)@
                == old(self)@,
            result matches Ok((up, down)) ==> {
                &&& stairs_fit(
                    old(self)@,
                    (up.0 as int, up.1 as int),
                    (down.0 as int, down.1 as int),
                )
                &&& final(self)@ == with_stairs(
                    old(self)@,
                    (up.0 as int, up.1 as int),
                    (down.0 as int, down.1 as int),
                )
                &&& reachable(
                    final(self)@,
                    (up.0 as int, up.1 as int),
                    (down.0 as int, down.1 as int),
                )
                &&& reachable(
                    final(self)@,
                    (down.0 as int, down.1 as int),
                    (up.0 as int, up.1 as int),
                )
            },
    {
        let mut rng = seeded_rng(seed);
        let up = match self.pick_up_stairs(&mut rng) {
            Some(up) => up,
            None => {
                return Err(DungeonError::NoFloorCellAvailable);
            },
        };
        let down = self.pick_down_stairs(&mut rng, up);
        proof {
            self.lemma_view_len();
            lemma_stairs_stay_connected(
                self@,
                (up.0 as int, up.1 as int),
                (down.0 as int, down.1 as int),
            );
        }
        self.write_stairs(up, down);
        Ok((up, down))
    }
}

} // verus!
