//! The text form of a level: one line per row, one glyph per cell.

use vstd::prelude::*;
use vstd::string::StringExecFns;
use crate::grid::{
    cells_from, in_bounds, lemma_cells_equal, lemma_cells_from, lemma_with_tile, tile_at, Grid,
    CELL_COUNT, GRID_SIZE,
};
use crate::tiles::TileType;

verus! {

/// Length of one printed row: its glyphs and the line break.
pub const LINE_LENGTH: usize = 65;

/// Length of a printed level.
pub const TEXT_LENGTH: usize = 4160;

/// The row on which character `i` of `text` stands: the number of line
/// breaks before it.
pub open spec fn row_of(text: Seq<char>, i: int) -> int
    decreases i,
{
    if i <= 0 {
        0
    } else if text[i - 1] == '\n' {
        row_of(text, i - 1) + 1
    } else {
        row_of(text, i - 1)
    }
}

/// The column in which character `i` of `text` stands: the number of glyphs
/// before it on its line. Characters that are no glyph take no column.
pub open spec fn column_of(text: Seq<char>, i: int) -> int
    decreases i,
{
    if i <= 0 {
        0
    } else if text[i - 1] == '\n' {
        0
    } else if TileType::of_glyph(text[i - 1]) is Some {
        column_of(text, i - 1) + 1
    } else {
        column_of(text, i - 1)
    }
}

/// Whether character `i` of `text` is a glyph that stands in column `x` of
/// row `y`.
pub open spec fn lands_on(text: Seq<char>, i: int, x: int, y: int) -> bool {
    &&& TileType::of_glyph(text[i]) is Some
    &&& column_of(text, i) == x
    &&& row_of(text, i) == y
}

/// The tile that the first `n` characters of `text` give the cell `(x, y)`:
/// that of the glyph that lands on it, `Floor` where none does.
pub open spec fn parsed_tile(text: Seq<char>, n: int, x: int, y: int) -> TileType
    decreases n,
{
    if n <= 0 {
        TileType::Floor
    } else if lands_on(text, n - 1, x, y) {
        TileType::of_glyph(text[n - 1])->0
    } else {
        parsed_tile(text, n - 1, x, y)
    }
}

/// The level that `text` describes. Glyphs that land outside the grid and
/// characters that are neither a glyph nor a line break count for nothing.
pub open spec fn parsed(text: Seq<char>) -> Seq<TileType> {
    cells_from(|x: int, y: int| parsed_tile(text, text.len() as int, x, y))
}

/// The text of a level: row after row, the glyphs of the row from column 0
/// on, then a line break.
pub open spec fn printed(cells: Seq<TileType>) -> Seq<char> {
    Seq::new(
        TEXT_LENGTH as nat,
        |k: int|
            if k % (LINE_LENGTH as int) == GRID_SIZE as int {
                '\n'
            } else {
                tile_at(cells, k % (LINE_LENGTH as int), k / (LINE_LENGTH as int)).glyph()
            },
    )
}

/// In a printed level character `i` stands on row `i / LINE_LENGTH`, in
/// column `i % LINE_LENGTH`.
proof fn lemma_printed_places(cells: Seq<TileType>, i: int)
    requires
        0 <= i <= TEXT_LENGTH,
    ensures
        row_of(printed(cells), i) == i / (LINE_LENGTH as int),
        column_of(printed(cells), i) == i % (LINE_LENGTH as int),
    decreases i,
{
    if i > 0 {
        lemma_printed_places(cells, i - 1);
        let text = printed(cells);
        let k = i - 1;
        if k % (LINE_LENGTH as int) != GRID_SIZE as int {
            let tile = tile_at(cells, k % (LINE_LENGTH as int), k / (LINE_LENGTH as int));
            tile.lemma_glyph_round_trip();
            assert(text[k] == tile.glyph());
        } else {
            assert(text[k] == '\n');
        }
    }
}

/// Of a printed level, the first `n` characters give the cell `(x, y)` its
/// tile as soon as they reach its glyph, and `Floor` before.
proof fn lemma_printed_prefix(cells: Seq<TileType>, n: int, x: int, y: int)
    requires
        0 <= n <= TEXT_LENGTH,
        in_bounds(x, y),
    ensures
        parsed_tile(printed(cells), n, x, y) == if n > y * LINE_LENGTH + x {
            tile_at(cells, x, y)
        } else {
            TileType::Floor
        },
    decreases n,
{
    if n > 0 {
        let text = printed(cells);
        let k = n - 1;
        lemma_printed_prefix(cells, k, x, y);
        lemma_printed_places(cells, k);
        if k % (LINE_LENGTH as int) != GRID_SIZE as int {
            let tile = tile_at(cells, k % (LINE_LENGTH as int), k / (LINE_LENGTH as int));
            tile.lemma_glyph_round_trip();
            assert(text[k] == tile.glyph());
        } else {
            assert(text[k] == '\n');
        }
    }
}

/// Reading back the text of a level gives that level.
pub proof fn lemma_round_trip(cells: Seq<TileType>)
    requires
        cells.len() == CELL_COUNT,
    ensures
        parsed(printed(cells)) == cells,
{
    let text = printed(cells);
    lemma_cells_from(|x: int, y: int| parsed_tile(text, text.len() as int, x, y));
    assert forall|x: int, y: int| in_bounds(x, y) implies tile_at(parsed(text), x, y) == tile_at(
        cells,
        x,
        y,
    ) by {
        lemma_printed_prefix(cells, TEXT_LENGTH as int, x, y);
    }
    lemma_cells_equal(parsed(text), cells);
}

/// The glyph of `tile` as a string of one character.
fn glyph_str(tile: TileType) -> (s: &'static str)
    ensures
        s@ == seq![tile.glyph()],
{
    proof {
        reveal_strlit("#");
        reveal_strlit(".");
        reveal_strlit(">");
        reveal_strlit("<");
        reveal_strlit("F");
        reveal_strlit(" ");
        reveal_strlit("L");
    }
    let s = match tile {
        TileType::Wall => "#",
        TileType::Floor => ".",
        TileType::DownStairs => ">",
        TileType::UpStairs => "<",
        TileType::Fountain => "F",
        TileType::Water => " ",
        TileType::Lava => "L",
    };
    assert(s@ =~= seq![tile.glyph()]);
    s
}

impl Grid {
    /// Reading back the text of a grid gives the cells of that grid.
    pub proof fn lemma_text_round_trip(&self)
        ensures
            parsed(printed(self@)) == self@,
    {
        self.lemma_view_len();
        lemma_round_trip(self@);
    }

    /// The level that `input` describes: `#` is `Wall`, `.` is `Floor`, `>`
    /// is `DownStairs`, `<` is `UpStairs`, `F` is `Fountain`, a blank is
    /// `Water` and `L` is `Lava`.
    ///
    /// Each line is a row, and each glyph on it takes the next column. A
    /// cell that no glyph lands on is `Floor`. Any other character is passed
    /// over and takes no column, and a glyph beyond the last column or the
    /// last row is dropped.
    pub fn load_from_string(input: &str) -> (grid: Grid)
        ensures
            grid@ == parsed(input@),
    {
        let ghost text = input@;
        let mut grid = Grid::new_floor_grid();
        let mut x: usize = 0;
        let mut y: usize = 0;
        for c in it: input.chars()
            invariant
                text == input@,
                it.seq() == text,
                x == if column_of(text, it.index()) < GRID_SIZE {
                    column_of(text, it.index())
                } else {
                    GRID_SIZE as int
                },
                y == if row_of(text, it.index()) < GRID_SIZE {
                    row_of(text, it.index())
                } else {
                    GRID_SIZE as int
                },
                forall|px: int, py: int|
                    in_bounds(px, py) ==> #[trigger] tile_at(grid@, px, py) == parsed_tile(
                        text,
                        it.index(),
                        px,
                        py,
                    ),
        {
            let ghost i = it.index();
            assert(text[i] == c);
            if c == '\n' {
                x = 0;
                if y < GRID_SIZE {
                    y += 1;
                }
            } else {
                match TileType::from_glyph(c) {
                    Some(tile) => {
                        if x < GRID_SIZE && y < GRID_SIZE {
                            proof {
                                grid.lemma_view_len();
                                lemma_with_tile(grid@, x as int, y as int, tile);
                            }
                            grid.put(x, y, tile);
                        }
                        if x < GRID_SIZE {
                            x += 1;
                        }
                    },
                    None => {},
                }
            }
        }
        proof {
            grid.lemma_view_len();
            lemma_cells_from(|px: int, py: int| parsed_tile(text, text.len() as int, px, py));
            lemma_cells_equal(grid@, parsed(text));
        }
        grid
    }

    /// The text of the level: row after row, each row as its glyphs from
    /// column 0 on and a line break.
    pub fn pretty_print_grid(&self) -> (text: String)
        ensures
            text@ == printed(self@),
    {
        let mut text = String::new();
        let mut y: usize = 0;
        while y < GRID_SIZE
            invariant
                y <= GRID_SIZE,
                text@.len() == y * LINE_LENGTH,
                forall|k: int| 0 <= k < text@.len() ==> text@[k] == printed(self@)[k],
            decreases GRID_SIZE - y,
        {
            let mut x: usize = 0;
            while x < GRID_SIZE
                invariant
                    y < GRID_SIZE,
                    x <= GRID_SIZE,
                    text@.len() == y * LINE_LENGTH + x,
                    forall|k: int| 0 <= k < text@.len() ==> text@[k] == printed(self@)[k],
                decreases GRID_SIZE - x,
            {
                let ghost k = text@.len() as int;
                assert(k % (LINE_LENGTH as int) == x && k / (LINE_LENGTH as int) == y);
                text.append(glyph_str(self.tile(x, y)));
                x += 1;
            }
            let ghost k = text@.len() as int;
            assert(k % (LINE_LENGTH as int) == GRID_SIZE && k / (LINE_LENGTH as int) == y);
            proof {
                reveal_strlit("\n");
            }
            assert("\n"@ =~= seq!['\n']);
            text.append("\n");
            y += 1;
        }
        assert(text@ =~= printed(self@));
        text
    }
}

} // verus!
