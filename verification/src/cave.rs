//! Cave levels: random noise smoothed by a cellular automaton.

use vstd::prelude::*;
use rand::rngs::StdRng;
use crate::dice::{roll, seeded_rng};
use crate::grid::{
    cells_from, filled, in_bounds, lemma_cells_equal, lemma_cells_from, lemma_with_tile, tile_at,
    wall_and_floor_only, Grid, CELL_COUNT, GRID_SIZE,
};
use crate::tiles::TileType;

verus! {

/// 1 where `(x, y)` is a cell of the grid that holds `Wall`, else 0. A place
/// outside the grid counts as no wall.
pub open spec fn wall_count_at(cells: Seq<TileType>, x: int, y: int) -> int {
    if in_bounds(x, y) && tile_at(cells, x, y) == TileType::Wall {
        1
    } else {
        0
    }
}

/// How many of the eight cells around `(x, y)` hold `Wall`.
pub open spec fn wall_neighbors(cells: Seq<TileType>, x: int, y: int) -> int {
    wall_count_at(cells, x - 1, y - 1) + wall_count_at(cells, x - 1, y) + wall_count_at(
        cells,
        x - 1,
        y + 1,
    ) + wall_count_at(cells, x, y - 1) + wall_count_at(cells, x, y + 1) + wall_count_at(
        cells,
        x + 1,
        y - 1,
    ) + wall_count_at(cells, x + 1, y) + wall_count_at(cells, x + 1, y + 1)
}

/// What one smoothing pass makes of the cell `(x, y)`: a wall stays a wall
/// with four or more walls around it, any other cell becomes a wall with
/// five or more, and every cell that is no wall afterwards is `Floor`.
pub open spec fn smoothed_tile(cells: Seq<TileType>, x: int, y: int) -> TileType {
    let needed: int = if tile_at(cells, x, y) == TileType::Wall { 4 } else { 5 };
    if wall_neighbors(cells, x, y) >= needed {
        TileType::Wall
    } else {
        TileType::Floor
    }
}

/// The level after one smoothing pass, each cell computed from the level
/// before the pass.
pub open spec fn smoothed(cells: Seq<TileType>) -> Seq<TileType> {
    cells_from(|x: int, y: int| smoothed_tile(cells, x, y))
}

/// The level after `passes` smoothing passes.
pub open spec fn smoothed_times(cells: Seq<TileType>, passes: nat) -> Seq<TileType>
    decreases passes,
{
    if passes == 0 {
        cells
    } else {
        smoothed(smoothed_times(cells, (passes - 1) as nat))
    }
}

/// Whether `cells` may be the noise that a cave starts from, at the given
/// share of walls in percent: a full level of `Wall` and `Floor`, with no
/// wall at 0 percent and nothing but wall at 100 percent or more.
pub open spec fn is_noise(cells: Seq<TileType>, wall_percent: u32) -> bool {
    &&& cells.len() == CELL_COUNT
    &&& wall_and_floor_only(cells)
    &&& wall_percent == 0 ==> cells == filled(TileType::Floor)
    &&& wall_percent >= 100 ==> cells == filled(TileType::Wall)
}

/// Without a pass the level stays as it is.
pub proof fn lemma_no_pass(cells: Seq<TileType>)
    ensures
        smoothed_times(cells, 0) == cells,
{
}

/// A smoothing pass gives a full level of `Wall` and `Floor`.
pub proof fn lemma_smoothed_is_wall_and_floor(cells: Seq<TileType>)
    ensures
        smoothed(cells).len() == CELL_COUNT,
        wall_and_floor_only(smoothed(cells)),
{
    let next = smoothed(cells);
    lemma_cells_from(|x: int, y: int| smoothed_tile(cells, x, y));
    assert forall|k: int| 0 <= k < next.len() implies #[trigger] next[k] == TileType::Wall
        || next[k] == TileType::Floor by {
        let x = k % (GRID_SIZE as int);
        let y = k / (GRID_SIZE as int);
        assert(in_bounds(x, y));
        assert(next[k] == tile_at(next, x, y));
    }
}

/// Smoothing a full level of `Wall` and `Floor` any number of times gives
/// a full level of `Wall` and `Floor`.
pub proof fn lemma_smoothed_times_is_wall_and_floor(cells: Seq<TileType>, passes: nat)
    requires
        cells.len() == CELL_COUNT,
        wall_and_floor_only(cells),
    ensures
        smoothed_times(cells, passes).len() == CELL_COUNT,
        wall_and_floor_only(smoothed_times(cells, passes)),
    decreases passes,
{
    if passes > 0 {
        lemma_smoothed_is_wall_and_floor(smoothed_times(cells, (passes - 1) as nat));
    }
}

/// A level without walls stays without walls under smoothing.
pub proof fn lemma_open_level_stays_open(passes: nat)
    ensures
        smoothed_times(filled(TileType::Floor), passes) == filled(TileType::Floor),
    decreases passes,
{
    if passes > 0 {
        lemma_open_level_stays_open((passes - 1) as nat);
        let open = filled(TileType::Floor);
        lemma_cells_from(|x: int, y: int| smoothed_tile(open, x, y));
        lemma_cells_equal(smoothed(open), open);
    }
}

/// The tile of a cell of noise for which `drawn` came out of `0 .. 100`:
/// `Wall` where `drawn` lies below `wall_percent`, `Floor` where it does not.
pub fn noise_tile(drawn: usize, wall_percent: u32) -> (tile: TileType)
    ensures
        tile == if drawn < wall_percent {
            TileType::Wall
        } else {
            TileType::Floor
        },
{
    if drawn < wall_percent as usize {
        TileType::Wall
    } else {
        TileType::Floor
    }
}

impl Grid {
    /// 1 where `(x, y)` is a cell that holds `Wall`, else 0.
    fn wall_count(&self, x: i32, y: i32) -> (n: u8)
        ensures
            n == wall_count_at(self@, x as int, y as int),
    {
        if x < 0 || x >= GRID_SIZE as i32 || y < 0 || y >= GRID_SIZE as i32 {
            0
        } else if self.tile(x as usize, y as usize) == TileType::Wall {
            1
        } else {
            0
        }
    }

    /// How many of the eight cells around `(x, y)` hold `Wall`; cells
    /// outside the grid are left out of the count.
    pub fn count_wall_neighbors(&self, x: usize, y: usize) -> (n: u8)
        requires
            in_bounds(x as int, y as int),
        ensures
            n == wall_neighbors(self@, x as int, y as int),
    {
        let cx = x as i32;
        let cy = y as i32;
        self.wall_count(cx - 1, cy - 1) + self.wall_count(cx - 1, cy) + self.wall_count(
            cx - 1,
            cy + 1,
        ) + self.wall_count(cx, cy - 1) + self.wall_count(cx, cy + 1) + self.wall_count(
            cx + 1,
            cy - 1,
        ) + self.wall_count(cx + 1, cy) + self.wall_count(cx + 1, cy + 1)
    }

    /// The level after one smoothing pass. Every cell is computed from this
    /// level, none from a cell that the pass has already rewritten.
    pub fn smooth(&self) -> (next: Grid)
        ensures
            next@ == smoothed(self@),
    {
        let mut next = Grid::new_floor_grid();
        let mut x: usize = 0;
        while x < GRID_SIZE
            invariant
                x <= GRID_SIZE,
                forall|px: int, py: int|
                    in_bounds(px, py) && px < x ==> #[trigger] tile_at(next@, px, py)
                        == smoothed_tile(self@, px, py),
            decreases GRID_SIZE - x,
        {
            let mut y: usize = 0;
            while y < GRID_SIZE
                invariant
                    x < GRID_SIZE,
                    y <= GRID_SIZE,
                    forall|px: int, py: int|
                        in_bounds(px, py) && (px < x || (px == x && py < y)) ==> #[trigger] tile_at(
                            next@,
                            px,
                            py,
                        ) == smoothed_tile(self@, px, py),
                decreases GRID_SIZE - y,
            {
                let walls = self.count_wall_neighbors(x, y);
                let needed: u8 = if self.tile(x, y) == TileType::Wall { 4 } else { 5 };
                let tile = if walls >= needed { TileType::Wall } else { TileType::Floor };
                proof {
                    next.lemma_view_len();
                    lemma_with_tile(next@, x as int, y as int, tile);
                }
                next.put(x, y, tile);
                y += 1;
            }
            x += 1;
        }
        proof {
            next.lemma_view_len();
            lemma_cells_from(|px: int, py: int| smoothed_tile(self@, px, py));
            lemma_cells_equal(next@, smoothed(self@));
        }
        next
    }

    /// The level after `passes` smoothing passes.
    pub fn smooth_times(&self, passes: u32) -> (last: Grid)
        ensures
            last@ == smoothed_times(self@, passes as nat),
    {
        let mut last = self.clone();
        let mut done: u32 = 0;
        while done < passes
            invariant
                done <= passes,
                last@ == smoothed_times(self@, done as nat),
            decreases passes - done,
        {
            last = last.smooth();
            done += 1;
        }
        last
    }

    /// A level of noise: each cell is `Wall` where a number drawn from
    /// `0 .. 100` lies below `wall_percent`, and `Floor` where it does not.
    fn noise(rng: &mut StdRng, wall_percent: u32) -> (grid: Grid)
        ensures
            is_noise(grid@, wall_percent),
    {
        let mut grid = Grid::new_floor_grid();
        let mut x: usize = 0;
        while x < GRID_SIZE
            invariant
                x <= GRID_SIZE,
                forall|px: int, py: int|
                    in_bounds(px, py) ==> #[trigger] tile_at(grid@, px, py) == TileType::Wall
                        || tile_at(grid@, px, py) == TileType::Floor,
                wall_percent == 0 ==> forall|px: int, py: int|
                    in_bounds(px, py) ==> #[trigger] tile_at(grid@, px, py) == TileType::Floor,
                wall_percent >= 100 ==> forall|px: int, py: int|
                    in_bounds(px, py) && px < x ==> #[trigger] tile_at(grid@, px, py)
                        == TileType::Wall,
            decreases GRID_SIZE - x,
        {
            let mut y: usize = 0;
            while y < GRID_SIZE
                invariant
                    x < GRID_SIZE,
                    y <= GRID_SIZE,
                    forall|px: int, py: int|
                        in_bounds(px, py) ==> #[trigger] tile_at(grid@, px, py) == TileType::Wall
                            || tile_at(grid@, px, py) == TileType::Floor,
                    wall_percent == 0 ==> forall|px: int, py: int|
                        in_bounds(px, py) ==> #[trigger] tile_at(grid@, px, py) == TileType::Floor,
                    wall_percent >= 100 ==> forall|px: int, py: int|
                        in_bounds(px, py) && (px < x || (px == x && py < y)) ==> #[trigger] tile_at(
                            grid@,
                            px,
                            py,
                        ) == TileType::Wall,
                decreases GRID_SIZE - y,
            {
                let tile = noise_tile(roll(rng, 0, 100), wall_percent);
                proof {
                    grid.lemma_view_len();
                    lemma_with_tile(grid@, x as int, y as int, tile);
                }
                grid.put(x, y, tile);
                y += 1;
            }
            x += 1;
        }
        proof {
            grid.lemma_view_len();
            let cells = grid@;
            assert forall|k: int| 0 <= k < cells.len() implies #[trigger] cells[k]
                == TileType::Wall || cells[k] == TileType::Floor by {
                let px = k % (GRID_SIZE as int);
                let py = k / (GRID_SIZE as int);
                assert(in_bounds(px, py));
                assert(cells[k] == tile_at(cells, px, py));
            }
            if wall_percent == 0 {
                lemma_cells_equal(cells, filled(TileType::Floor));
            }
            if wall_percent >= 100 {
                lemma_cells_equal(cells, filled(TileType::Wall));
            }
        }
        grid
    }

    /// A level of noise drawn from the random sequence that `seed` starts,
    /// with about `wall_percent` in a hundred cells `Wall` and the rest
    /// `Floor`.
    pub fn new_noise_grid(seed: u64, wall_percent: u32) -> (grid: Grid)
        ensures
            is_noise(grid@, wall_percent),
    {
        let mut rng = seeded_rng(seed);
        Grid::noise(&mut rng, wall_percent)
    }

    /// A cave: noise with about `wall_percent` in a hundred cells `Wall`,
    /// drawn from the random sequence that `seed` starts, after `iterations`
    /// smoothing passes. The result holds `Wall` and `Floor` only.
    pub fn new_cell_automata_grid(seed: u64, wall_percent: u32, iterations: u32) -> (grid: Grid)
        ensures
            exists|noise: Seq<TileType>|
                is_noise(noise, wall_percent) && grid@ == #[trigger] smoothed_times(
                    noise,
                    iterations as nat,
                ),
            wall_and_floor_only(grid@),
            wall_percent == 0 ==> grid@ == filled(TileType::Floor),
    {
        let start = Grid::new_noise_grid(seed, wall_percent);
        let grid = start.smooth_times(iterations);
        proof {
            lemma_smoothed_times_is_wall_and_floor(start@, iterations as nat);
            if wall_percent == 0 {
                lemma_open_level_stays_open(iterations as nat);
            }
        }
        grid
    }
}

} // verus!
