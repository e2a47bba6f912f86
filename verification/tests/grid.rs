use dungeon_grid::grid::{Grid, CELL_COUNT, GRID_SIZE};
use dungeon_grid::tiles::{Tile, TileType};

#[test]
fn the_grid_is_64_by_64() {
    assert_eq!(GRID_SIZE, 64);
    assert_eq!(CELL_COUNT, 4096);
}

#[test]
fn a_floor_grid_holds_floor_in_every_cell() {
    let grid = Grid::new_floor_grid();
    for y in 0..GRID_SIZE {
        for x in 0..GRID_SIZE {
            assert_eq!(grid.get(x, y), Some(TileType::Floor));
        }
    }
}

#[test]
fn a_filled_grid_holds_the_tile_in_every_cell() {
    let grid = Grid::new_filled(TileType::Lava);
    for y in 0..GRID_SIZE {
        for x in 0..GRID_SIZE {
            assert_eq!(grid.get(x, y), Some(TileType::Lava));
        }
    }
}

#[test]
fn get_outside_the_grid_is_none() {
    let grid = Grid::new_floor_grid();
    assert_eq!(grid.get(64, 0), None);
    assert_eq!(grid.get(0, 64), None);
    assert_eq!(grid.get(usize::MAX, usize::MAX), None);
    assert_eq!(grid.get(63, 63), Some(TileType::Floor));
}

#[test]
fn set_changes_one_cell() {
    let mut grid = Grid::new_floor_grid();
    assert!(grid.set(5, 9, TileType::Fountain));
    for y in 0..GRID_SIZE {
        for x in 0..GRID_SIZE {
            let expected = if (x, y) == (5, 9) { TileType::Fountain } else { TileType::Floor };
            assert_eq!(grid.get(x, y), Some(expected));
        }
    }
}

#[test]
fn set_keeps_columns_and_rows_apart() {
    let mut grid = Grid::new_floor_grid();
    assert!(grid.set(1, 0, TileType::Wall));
    assert_eq!(grid.get(1, 0), Some(TileType::Wall));
    assert_eq!(grid.get(0, 1), Some(TileType::Floor));
}

#[test]
fn set_outside_the_grid_changes_nothing() {
    let mut grid = Grid::new_floor_grid();
    assert!(!grid.set(64, 3, TileType::Wall));
    assert!(!grid.set(3, 64, TileType::Wall));
    assert_eq!(grid, Grid::new_floor_grid());
}

#[test]
fn fill_rect_writes_the_rectangle_and_nothing_else() {
    let mut grid = Grid::new_floor_grid();
    grid.fill_rect(2, 3, 5, 7, TileType::Wall);
    for y in 0..GRID_SIZE {
        for x in 0..GRID_SIZE {
            let inside = (2..5).contains(&x) && (3..7).contains(&y);
            let expected = if inside { TileType::Wall } else { TileType::Floor };
            assert_eq!(grid.get(x, y), Some(expected));
        }
    }
}

#[test]
fn fill_rect_is_clipped_to_the_grid() {
    let mut grid = Grid::new_floor_grid();
    grid.fill_rect(60, 62, 1000, usize::MAX, TileType::Water);
    for y in 0..GRID_SIZE {
        for x in 0..GRID_SIZE {
            let expected = if x >= 60 && y >= 62 { TileType::Water } else { TileType::Floor };
            assert_eq!(grid.get(x, y), Some(expected));
        }
    }
}

#[test]
fn fill_rect_with_an_empty_range_changes_nothing() {
    let mut grid = Grid::new_floor_grid();
    grid.fill_rect(5, 5, 5, 9, TileType::Wall);
    grid.fill_rect(9, 5, 3, 9, TileType::Wall);
    grid.fill_rect(70, 70, 80, 80, TileType::Wall);
    assert_eq!(grid, Grid::new_floor_grid());
}

#[test]
fn find_tile_gives_the_first_in_row_major_order() {
    let mut grid = Grid::new_floor_grid();
    grid.set(7, 2, TileType::UpStairs);
    grid.set(1, 3, TileType::UpStairs);
    grid.set(9, 2, TileType::UpStairs);
    assert_eq!(grid.find_tile(TileType::UpStairs), Some((7, 2)));
    assert_eq!(grid.find_tile(TileType::Floor), Some((0, 0)));
}

#[test]
fn find_tile_is_none_where_no_cell_holds_it() {
    let grid = Grid::new_floor_grid();
    assert_eq!(grid.find_tile(TileType::DownStairs), None);
}

#[test]
fn find_tile_reaches_the_last_cell() {
    let mut grid = Grid::new_floor_grid();
    grid.set(63, 63, TileType::Lava);
    assert_eq!(grid.find_tile(TileType::Lava), Some((63, 63)));
}

#[test]
fn a_clone_equals_the_grid_it_was_made_from() {
    let mut grid = Grid::new_floor_grid();
    grid.set(10, 20, TileType::Wall);
    let copy = grid.clone();
    assert_eq!(copy, grid);
    assert_eq!(copy.get(10, 20), Some(TileType::Wall));
}

#[test]
fn grids_that_differ_in_one_cell_are_not_equal() {
    let mut grid = Grid::new_floor_grid();
    grid.set(63, 63, TileType::Wall);
    assert_ne!(grid, Grid::new_floor_grid());
}

#[test]
fn to_tiles_lists_every_cell_with_its_place() {
    let mut grid = Grid::new_floor_grid();
    grid.set(3, 1, TileType::Fountain);
    let tiles = grid.to_tiles(7);
    assert_eq!(tiles.len(), 4096);
    assert_eq!(tiles[0], Tile { tile_type: TileType::Floor, x: 0, y: 0, level: 7 });
    assert_eq!(tiles[67], Tile { tile_type: TileType::Fountain, x: 3, y: 1, level: 7 });
    assert_eq!(tiles[4095], Tile { tile_type: TileType::Floor, x: 63, y: 63, level: 7 });
}
