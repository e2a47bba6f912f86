use dungeon_grid::grid::{Grid, GRID_SIZE};
use dungeon_grid::tiles::TileType;

fn ringed() -> Grid {
    // A ring of wall on the border of the square from (10, 10) to (20, 20).
    let mut grid = Grid::new_floor_grid();
    grid.fill_rect(10, 10, 21, 21, TileType::Wall);
    grid.fill_rect(11, 11, 20, 20, TileType::Floor);
    grid
}

#[test]
fn every_cell_is_reachable_from_itself() {
    let mut grid = Grid::new_floor_grid();
    grid.set(4, 4, TileType::Wall);
    assert!(grid.is_a_reachable_from_b((0, 0), (0, 0)));
    assert!(grid.is_a_reachable_from_b((63, 63), (63, 63)));
    assert!(grid.is_a_reachable_from_b((4, 4), (4, 4)));
}

#[test]
fn an_open_grid_is_connected_from_corner_to_corner() {
    let grid = Grid::new_floor_grid();
    let corners = [(0, 0), (63, 0), (0, 63), (63, 63)];
    for a in corners {
        for b in corners {
            assert!(grid.is_a_reachable_from_b(a, b));
        }
    }
}

#[test]
fn a_wall_ring_keeps_the_fill_inside() {
    let grid = ringed();
    assert!(grid.is_a_reachable_from_b((19, 19), (11, 11)));
    assert!(!grid.is_a_reachable_from_b((0, 0), (15, 15)));
    assert!(!grid.is_a_reachable_from_b((21, 15), (15, 15)));
    assert!(!grid.is_a_reachable_from_b((10, 10), (15, 15)));
}

#[test]
fn a_wall_ring_keeps_the_fill_outside() {
    let grid = ringed();
    assert!(grid.is_a_reachable_from_b((63, 63), (0, 0)));
    assert!(!grid.is_a_reachable_from_b((15, 15), (0, 0)));
    assert!(!grid.is_a_reachable_from_b((11, 11), (21, 21)));
}

#[test]
fn the_start_may_hold_any_tile() {
    let grid = ringed();
    // From a cell of the ring the fill steps to both sides.
    assert!(grid.is_a_reachable_from_b((15, 15), (10, 15)));
    assert!(grid.is_a_reachable_from_b((0, 0), (10, 15)));
    // But a cell of the ring is entered from neither side.
    assert!(!grid.is_a_reachable_from_b((10, 15), (15, 15)));
    assert!(!grid.is_a_reachable_from_b((10, 15), (0, 0)));
}

#[test]
fn a_gap_in_the_ring_lets_the_fill_through() {
    let mut grid = ringed();
    grid.set(20, 14, TileType::Floor);
    assert!(grid.is_a_reachable_from_b((0, 0), (15, 15)));
    assert!(grid.is_a_reachable_from_b((15, 15), (0, 0)));
}

#[test]
fn the_fill_steps_diagonally() {
    let mut grid = Grid::new_filled(TileType::Wall);
    for i in 0..GRID_SIZE {
        grid.set(i, i, TileType::Floor);
    }
    assert!(grid.is_a_reachable_from_b((63, 63), (0, 0)));
    assert!(!grid.is_a_reachable_from_b((1, 0), (0, 0)));
}

#[test]
fn lava_and_water_block_like_wall() {
    for barrier in [TileType::Wall, TileType::Lava, TileType::Water] {
        let mut grid = Grid::new_floor_grid();
        grid.fill_rect(30, 0, 31, 64, barrier);
        assert!(!grid.is_a_reachable_from_b((63, 5), (0, 5)));
        assert!(!grid.is_a_reachable_from_b((30, 5), (0, 5)));
    }
}

#[test]
fn stairs_and_fountains_let_pass() {
    for tile in [TileType::UpStairs, TileType::DownStairs, TileType::Fountain] {
        let mut grid = Grid::new_floor_grid();
        grid.fill_rect(30, 0, 31, 64, tile);
        assert!(grid.is_a_reachable_from_b((63, 5), (0, 5)));
        assert!(grid.is_a_reachable_from_b((30, 5), (0, 5)));
    }
}

#[test]
fn nothing_is_reachable_in_solid_wall_but_the_start() {
    let grid = Grid::new_filled(TileType::Wall);
    assert!(grid.is_a_reachable_from_b((5, 5), (5, 5)));
    assert!(!grid.is_a_reachable_from_b((5, 6), (5, 5)));
}

#[test]
fn places_outside_the_grid_are_not_reachable() {
    let grid = Grid::new_floor_grid();
    assert!(!grid.is_a_reachable_from_b((64, 0), (0, 0)));
    assert!(!grid.is_a_reachable_from_b((0, 0), (0, 64)));
    assert!(!grid.is_a_reachable_from_b((64, 64), (64, 64)));
    assert!(!grid.is_a_reachable_from_b((usize::MAX, 0), (usize::MAX, 0)));
}

#[test]
fn the_fill_stays_in_the_grid_from_every_corner() {
    let grid = Grid::new_filled(TileType::Water);
    for corner in [(0, 0), (63, 0), (0, 63), (63, 63)] {
        assert!(grid.is_a_reachable_from_b(corner, corner));
        assert!(!grid.is_a_reachable_from_b((32, 32), corner));
    }
}
