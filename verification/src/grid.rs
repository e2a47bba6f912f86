//! The level grid: a square matrix of tiles behind bounds-checked accessors.

use vstd::prelude::*;
use vstd::std_specs::cmp::PartialEqSpecImpl;
use crate::tiles::{Tile, TileType};

verus! {

/// Side length of every level.
pub const GRID_SIZE: usize = 64;

/// Number of cells of a level.
pub const CELL_COUNT: usize = 4096;

/// Whether `(x, y)` names a cell of the grid.
pub open spec fn in_bounds(x: int, y: int) -> bool {
    0 <= x < GRID_SIZE && 0 <= y < GRID_SIZE
}

/// Position of cell `(x, y)` in the row-major sequence of cells.
pub open spec fn cell_index(x: int, y: int) -> int {
    y * GRID_SIZE + x
}

/// The tile that the cell sequence `cells` holds at `(x, y)`.
pub open spec fn tile_at(cells: Seq<TileType>, x: int, y: int) -> TileType {
    cells[cell_index(x, y)]
}

/// The cell sequence `cells` with the tile at `(x, y)` replaced by `tile`.
pub open spec fn with_tile(cells: Seq<TileType>, x: int, y: int, tile: TileType) -> Seq<TileType> {
    cells.update(cell_index(x, y), tile)
}

/// A level filled with `tile`.
pub open spec fn filled(tile: TileType) -> Seq<TileType> {
    Seq::new(CELL_COUNT as nat, |k: int| tile)
}

/// Whether every cell of the level is `Wall` or `Floor`.
pub open spec fn wall_and_floor_only(cells: Seq<TileType>) -> bool {
    forall|k: int|
        0 <= k < cells.len() ==> #[trigger] cells[k] == TileType::Wall || cells[k]
            == TileType::Floor
}

/// The level whose cell `(x, y)` holds `f(x, y)`.
pub open spec fn cells_from(f: spec_fn(int, int) -> TileType) -> Seq<TileType> {
    Seq::new(CELL_COUNT as nat, |k: int| f(k % (GRID_SIZE as int), k / (GRID_SIZE as int)))
}

/// Whether `(x, y)` lies in the rectangle that spans the columns `x0..x1`
/// and the rows `y0..y1`, upper ends excluded.
pub open spec fn in_rect(x0: int, y0: int, x1: int, y1: int, x: int, y: int) -> bool {
    x0 <= x < x1 && y0 <= y < y1
}

/// The cell sequence `cells` with `tile` in every cell of the rectangle
/// `x0..x1` by `y0..y1`.
pub open spec fn with_rect(
    cells: Seq<TileType>,
    x0: int,
    y0: int,
    x1: int,
    y1: int,
    tile: TileType,
) -> Seq<TileType> {
    cells_from(|x: int, y: int| if in_rect(x0, y0, x1, y1, x, y) { tile } else { tile_at(cells, x, y) })
}

/// `cells_from(f)` is a full level that holds `f(x, y)` at `(x, y)`.
pub proof fn lemma_cells_from(f: spec_fn(int, int) -> TileType)
    ensures
        cells_from(f).len() == CELL_COUNT,
        forall|x: int, y: int| in_bounds(x, y) ==> #[trigger] tile_at(cells_from(f), x, y) == f(x, y),
{
    assert forall|x: int, y: int| in_bounds(x, y) implies #[trigger] tile_at(cells_from(f), x, y)
        == f(x, y) by {
        let k = cell_index(x, y);
        assert(k % (GRID_SIZE as int) == x);
        assert(k / (GRID_SIZE as int) == y);
    }
}

/// Replacing one tile changes that cell and no other.
pub proof fn lemma_with_tile(cells: Seq<TileType>, x: int, y: int, tile: TileType)
    requires
        cells.len() == CELL_COUNT,
        in_bounds(x, y),
    ensures
        with_tile(cells, x, y, tile).len() == CELL_COUNT,
        forall|px: int, py: int|
            in_bounds(px, py) ==> #[trigger] tile_at(with_tile(cells, x, y, tile), px, py) == if px
                == x && py == y {
                tile
            } else {
                tile_at(cells, px, py)
            },
{
}

/// Two cell sequences of full length that agree on every cell are equal.
pub proof fn lemma_cells_equal(a: Seq<TileType>, b: Seq<TileType>)
    requires
        a.len() == CELL_COUNT,
        b.len() == CELL_COUNT,
        forall|x: int, y: int| in_bounds(x, y) ==> tile_at(a, x, y) == tile_at(b, x, y),
    ensures
        a == b,
{
    assert forall|k: int| 0 <= k < CELL_COUNT implies a[k] == b[k] by {
        let x = k % (GRID_SIZE as int);
        let y = k / (GRID_SIZE as int);
        assert(in_bounds(x, y));
        assert(cell_index(x, y) == k);
        assert(tile_at(a, x, y) == tile_at(b, x, y));
    }
    assert(a =~= b);
}

/// One dungeon level: `GRID_SIZE` rows of `GRID_SIZE` tiles, every cell set.
///
/// The view is the row-major sequence of the cells, of length `CELL_COUNT`;
/// cell `(x, y)` stands at `cell_index(x, y)`.
#[derive(Debug, Hash)]
pub struct Grid {
    tiles: Vec<TileType>,
}

impl View for Grid {
    type V = Seq<TileType>;

    closed spec fn view(&self) -> Seq<TileType> {
        Seq::new(CELL_COUNT as nat, |k: int| self.tiles@[k])
    }
}

impl Grid {
    #[verifier::type_invariant]
    spec fn well_formed(&self) -> bool {
        self.tiles@.len() == CELL_COUNT
    }

    /// The view of a grid always has one entry per cell.
    pub proof fn lemma_view_len(&self)
        ensures
            self@.len() == CELL_COUNT,
    {
    }

    /// A level of `tile` in every cell.
    pub fn new_filled(tile: TileType) -> (g: Grid)
        ensures
            g@ == filled(tile),
    {
        let mut tiles: Vec<TileType> = Vec::new();
        let mut k: usize = 0;
        while k < CELL_COUNT
            invariant
                k <= CELL_COUNT,
                tiles@.len() == k,
                forall|j: int| 0 <= j < k ==> tiles@[j] == tile,
            decreases CELL_COUNT - k,
        {
            tiles.push(tile);
            k += 1;
        }
        let g = Grid { tiles };
        assert(g@ =~= filled(tile));
        g
    }

    /// A level of `Floor` in every cell.
    pub fn new_floor_grid() -> (g: Grid)
        ensures
            g@ == filled(TileType::Floor),
    {
        Grid::new_filled(TileType::Floor)
    }

    /// The tile at `(x, y)`, which must lie inside the grid.
    pub fn tile(&self, x: usize, y: usize) -> (t: TileType)
        requires
            in_bounds(x as int, y as int),
        ensures
            t == tile_at(self@, x as int, y as int),
    {
        proof {
            use_type_invariant(self);
        }
        self.tiles[y * GRID_SIZE + x]
    }

    /// Replaces the tile at `(x, y)`, which must lie inside the grid.
    pub fn put(&mut self, x: usize, y: usize, tile: TileType)
        requires
            in_bounds(x as int, y as int),
        ensures
            final(self)@ == with_tile(old(self)@, x as int, y as int, tile),
    {
        proof {
            use_type_invariant(&*self);
        }
        self.tiles[y * GRID_SIZE + x] = tile;
        assert(self@ =~= with_tile(old(self)@, x as int, y as int, tile));
    }

    /// The tile at `(x, y)`, or `None` where `(x, y)` lies outside the grid.
    pub fn get(&self, x: usize, y: usize) -> (t: Option<TileType>)
        ensures
            t == if in_bounds(x as int, y as int) {
                Some(tile_at(self@, x as int, y as int))
            } else {
                None
            },
    {
        if x < GRID_SIZE && y < GRID_SIZE {
            Some(self.tile(x, y))
        } else {
            None
        }
    }

    /// Replaces the tile at `(x, y)` and reports `true`; where `(x, y)` lies
    /// outside the grid, changes nothing and reports `false`.
    pub fn set(&mut self, x: usize, y: usize, tile: TileType) -> (done: bool)
        ensures
            done == in_bounds(x as int, y as int),
            final(self)@ == if done {
                with_tile(old(self)@, x as int, y as int, tile)
            } else {
                old(self)@
            },
    {
        if x < GRID_SIZE && y < GRID_SIZE {
            self.put(x, y, tile);
            true
        } else {
            false
        }
    }

    /// Writes `tile` into every cell of the rectangle `x0..x1` by `y0..y1`
    /// that lies inside the grid.
    pub fn fill_rect(&mut self, x0: usize, y0: usize, x1: usize, y1: usize, tile: TileType)
        ensures
            final(self)@ == with_rect(old(self)@, x0 as int, y0 as int, x1 as int, y1 as int, tile),
    {
        let ghost before = self@;
        let x_end = if x1 < GRID_SIZE { x1 } else { GRID_SIZE };
        let y_end = if y1 < GRID_SIZE { y1 } else { GRID_SIZE };
        let mut cy = y0;
        while cy < y_end
            invariant
                y0 <= cy,
                cy <= y_end || cy == y0,
                x_end <= GRID_SIZE,
                y_end <= GRID_SIZE,
                y_end == if y1 < GRID_SIZE { y1 } else { GRID_SIZE },
                x_end == if x1 < GRID_SIZE { x1 } else { GRID_SIZE },
                forall|x: int, y: int|
                    in_bounds(x, y) ==> #[trigger] tile_at(self@, x, y) == if in_rect(
                        x0 as int,
                        y0 as int,
                        x1 as int,
                        cy as int,
                        x,
                        y,
                    ) {
                        tile
                    } else {
                        tile_at(before, x, y)
                    },
            decreases y_end - cy,
        {
            let mut cx = x0;
            while cx < x_end
                invariant
                    x0 <= cx,
                    cx <= x_end || cx == x0,
                    x_end <= GRID_SIZE,
                    cy < GRID_SIZE,
                    x_end == if x1 < GRID_SIZE { x1 } else { GRID_SIZE },
                    forall|x: int, y: int|
                        in_bounds(x, y) ==> #[trigger] tile_at(self@, x, y) == if in_rect(
                            x0 as int,
                            y0 as int,
                            x1 as int,
                            cy as int,
                            x,
                            y,
                        ) || (y == cy && x0 <= x < cx) {
                            tile
                        } else {
                            tile_at(before, x, y)
                        },
                decreases x_end - cx,
            {
                proof {
                    self.lemma_view_len();
                    lemma_with_tile(self@, cx as int, cy as int, tile);
                }
                self.put(cx, cy, tile);
                cx += 1;
            }
            cy += 1;
        }
        proof {
            let after = with_rect(before, x0 as int, y0 as int, x1 as int, y1 as int, tile);
            lemma_cells_from(
                |x: int, y: int|
                    if in_rect(x0 as int, y0 as int, x1 as int, y1 as int, x, y) {
                        tile
                    } else {
                        tile_at(before, x, y)
                    },
            );
            self.lemma_view_len();
            lemma_cells_equal(self@, after);
        }
    }

    /// Every cell of the grid as a tile of level number `level`, in
    /// row-major order: what a renderer draws.
    pub fn to_tiles(&self, level: usize) -> (tiles: Vec<Tile>)
        ensures
            tiles@.len() == CELL_COUNT,
            forall|x: int, y: int|
                in_bounds(x, y) ==> #[trigger] tiles@[cell_index(x, y)] == (Tile {
                    tile_type: tile_at(self@, x, y),
                    x: x as u32,
                    y: y as u32,
                    level,
                }),
    {
        let mut tiles: Vec<Tile> = Vec::new();
        let mut y: usize = 0;
        while y < GRID_SIZE
            invariant
                y <= GRID_SIZE,
                tiles@.len() == y * GRID_SIZE,
                forall|px: int, py: int|
                    in_bounds(px, py) && py < y ==> #[trigger] tiles@[cell_index(px, py)] == (Tile {
                        tile_type: tile_at(self@, px, py),
                        x: px as u32,
                        y: py as u32,
                        level,
                    }),
            decreases GRID_SIZE - y,
        {
            let mut x: usize = 0;
            while x < GRID_SIZE
                invariant
                    y < GRID_SIZE,
                    x <= GRID_SIZE,
                    tiles@.len() == y * GRID_SIZE + x,
                    forall|px: int, py: int|
                        in_bounds(px, py) && (py < y || (py == y && px < x))
                            ==> #[trigger] tiles@[cell_index(px, py)] == (Tile {
                            tile_type: tile_at(self@, px, py),
                            x: px as u32,
                            y: py as u32,
                            level,
                        }),
                decreases GRID_SIZE - x,
            {
                tiles.push(Tile { tile_type: self.tile(x, y), x: x as u32, y: y as u32, level });
                x += 1;
            }
            y += 1;
        }
        tiles
    }

    /// The first cell in row-major order that holds `tile`, if any does.
    pub fn find_tile(&self, tile: TileType) -> (found: Option<(usize, usize)>)
        ensures
            match found {
                Some((x, y)) => {
                    &&& in_bounds(x as int, y as int)
                    &&& tile_at(self@, x as int, y as int) == tile
                    &&& forall|k: int| 0 <= k < cell_index(x as int, y as int) ==> self@[k] != tile
                },
                None => forall|k: int| 0 <= k < CELL_COUNT ==> self@[k] != tile,
            },
    {
        proof {
            use_type_invariant(self);
        }
        let mut k: usize = 0;
        while k < CELL_COUNT
            invariant
                k <= CELL_COUNT,
                self.tiles@.len() == CELL_COUNT,
                forall|j: int| 0 <= j < k ==> self@[j] != tile,
            decreases CELL_COUNT - k,
        {
            if self.tiles[k] == tile {
                return Some((k % GRID_SIZE, k / GRID_SIZE));
            }
            k += 1;
        }
        None
    }
}

impl Clone for Grid {
    fn clone(&self) -> (g: Grid)
        ensures
            g@ == self@,
    {
        proof {
            use_type_invariant(self);
        }
        let mut tiles: Vec<TileType> = Vec::new();
        let mut k: usize = 0;
        while k < CELL_COUNT
            invariant
                k <= CELL_COUNT,
                self.tiles@.len() == CELL_COUNT,
                tiles@.len() == k,
                forall|j: int| 0 <= j < k ==> tiles@[j] == self.tiles@[j],
            decreases CELL_COUNT - k,
        {
            tiles.push(self.tiles[k]);
            k += 1;
        }
        let g = Grid { tiles };
        assert(g@ =~= self@);
        g
    }
}

impl PartialEq for Grid {
    fn eq(&self, other: &Grid) -> (same: bool) {
        proof {
            use_type_invariant(self);
            use_type_invariant(other);
        }
        let mut k: usize = 0;
        while k < CELL_COUNT
            invariant
                k <= CELL_COUNT,
                self.tiles@.len() == CELL_COUNT,
                other.tiles@.len() == CELL_COUNT,
                forall|j: int| 0 <= j < k ==> self@[j] == other@[j],
            decreases CELL_COUNT - k,
        {
            if self.tiles[k] != other.tiles[k] {
                assert(self@[k as int] != other@[k as int]);
                return false;
            }
            k += 1;
        }
        assert(self@ =~= other@);
        true
    }
}

impl PartialEqSpecImpl for Grid {
    open spec fn obeys_eq_spec() -> bool {
        true
    }

    open spec fn eq_spec(&self, other: &Grid) -> bool {
        self@ == other@
    }
}

impl Eq for Grid {

}

} // verus!
