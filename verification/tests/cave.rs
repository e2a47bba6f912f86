use dungeon_grid::cave::noise_tile;
use dungeon_grid::grid::{Grid, GRID_SIZE};
use dungeon_grid::tiles::TileType;

fn count(grid: &Grid, tile: TileType) -> usize {
    let mut n = 0;
    for y in 0..GRID_SIZE {
        for x in 0..GRID_SIZE {
            if grid.get(x, y) == Some(tile) {
                n += 1;
            }
        }
    }
    n
}

fn with_walls(cells: &[(usize, usize)]) -> Grid {
    let mut grid = Grid::new_floor_grid();
    for &(x, y) in cells {
        grid.set(x, y, TileType::Wall);
    }
    grid
}

#[test]
fn wall_neighbors_are_counted_around_the_cell() {
    let grid = with_walls(&[(4, 4), (5, 4), (6, 4), (4, 5), (5, 5), (6, 6), (8, 5)]);
    assert_eq!(grid.count_wall_neighbors(5, 5), 5);
    assert_eq!(grid.count_wall_neighbors(5, 4), 4);
    assert_eq!(grid.count_wall_neighbors(7, 5), 3);
    assert_eq!(grid.count_wall_neighbors(20, 20), 0);
}

#[test]
fn cells_outside_the_grid_count_as_no_wall() {
    let grid = Grid::new_filled(TileType::Wall);
    assert_eq!(grid.count_wall_neighbors(0, 0), 3);
    assert_eq!(grid.count_wall_neighbors(63, 63), 3);
    assert_eq!(grid.count_wall_neighbors(0, 63), 3);
    assert_eq!(grid.count_wall_neighbors(30, 0), 5);
    assert_eq!(grid.count_wall_neighbors(63, 30), 5);
    assert_eq!(grid.count_wall_neighbors(30, 30), 8);
}

#[test]
fn a_wall_stays_with_four_walls_around_it() {
    let grid = with_walls(&[(5, 5), (4, 4), (5, 4), (6, 4), (4, 5)]);
    assert_eq!(grid.count_wall_neighbors(5, 5), 4);
    assert_eq!(grid.smooth().get(5, 5), Some(TileType::Wall));
}

#[test]
fn a_wall_falls_with_three_walls_around_it() {
    let grid = with_walls(&[(5, 5), (4, 4), (5, 4), (6, 4)]);
    assert_eq!(grid.count_wall_neighbors(5, 5), 3);
    assert_eq!(grid.smooth().get(5, 5), Some(TileType::Floor));
}

#[test]
fn a_floor_cell_rises_with_five_walls_around_it() {
    let grid = with_walls(&[(4, 4), (5, 4), (6, 4), (4, 5), (6, 5)]);
    assert_eq!(grid.count_wall_neighbors(5, 5), 5);
    assert_eq!(grid.smooth().get(5, 5), Some(TileType::Wall));
}

#[test]
fn a_floor_cell_stays_with_four_walls_around_it() {
    let grid = with_walls(&[(4, 4), (5, 4), (6, 4), (4, 5)]);
    assert_eq!(grid.count_wall_neighbors(5, 5), 4);
    assert_eq!(grid.smooth().get(5, 5), Some(TileType::Floor));
}

#[test]
fn a_pass_reads_the_level_before_it() {
    // (4, 4) falls in the pass, and still counts as a wall for (5, 4) and
    // (5, 5), which are worked on after it.
    let grid = with_walls(&[(4, 4), (5, 4), (6, 4), (4, 5), (6, 5)]);
    let next = grid.smooth();
    assert_eq!(next.get(4, 4), Some(TileType::Floor));
    assert_eq!(next.get(5, 4), Some(TileType::Wall));
    assert_eq!(next.get(5, 5), Some(TileType::Wall));
    assert_eq!(count(&next, TileType::Wall), 2);
}

#[test]
fn solid_wall_loses_its_four_corners() {
    let next = Grid::new_filled(TileType::Wall).smooth();
    for y in 0..GRID_SIZE {
        for x in 0..GRID_SIZE {
            let corner = (x == 0 || x == 63) && (y == 0 || y == 63);
            let expected = if corner { TileType::Floor } else { TileType::Wall };
            assert_eq!(next.get(x, y), Some(expected));
        }
    }
}

#[test]
fn smoothing_leaves_wall_and_floor_only() {
    let mut grid = Grid::new_floor_grid();
    grid.fill_rect(0, 0, 32, 64, TileType::Water);
    grid.fill_rect(40, 0, 50, 64, TileType::Lava);
    grid.set(60, 60, TileType::UpStairs);
    assert_eq!(grid.smooth(), Grid::new_floor_grid());
}

#[test]
fn an_open_level_stays_open() {
    assert_eq!(Grid::new_floor_grid().smooth_times(4), Grid::new_floor_grid());
}

#[test]
fn no_pass_changes_nothing() {
    let grid = with_walls(&[(1, 1), (2, 2), (3, 3)]);
    assert_eq!(grid.smooth_times(0), grid);
}

#[test]
fn passes_follow_one_another() {
    let grid = Grid::new_noise_grid(11, 45);
    assert_eq!(grid.smooth_times(1), grid.smooth());
    assert_eq!(grid.smooth_times(3), grid.smooth().smooth().smooth());
}

#[test]
fn noise_at_zero_percent_is_all_floor() {
    assert_eq!(Grid::new_noise_grid(5, 0), Grid::new_floor_grid());
}

#[test]
fn noise_at_a_hundred_percent_or_more_is_all_wall() {
    assert_eq!(Grid::new_noise_grid(5, 100), Grid::new_filled(TileType::Wall));
    assert_eq!(Grid::new_noise_grid(5, 250), Grid::new_filled(TileType::Wall));
    assert_eq!(Grid::new_noise_grid(5, u32::MAX), Grid::new_filled(TileType::Wall));
}

#[test]
fn noise_holds_wall_and_floor_in_about_the_share_asked_for() {
    let grid = Grid::new_noise_grid(2024, 50);
    let walls = count(&grid, TileType::Wall);
    let floors = count(&grid, TileType::Floor);
    assert_eq!(walls + floors, 4096);
    assert!(walls > 1638 && walls < 2458, "walls: {}", walls);
    let sparse = count(&Grid::new_noise_grid(2024, 10), TileType::Wall);
    assert!(sparse > 200 && sparse < 620, "walls: {}", sparse);
}

#[test]
fn a_cave_without_passes_is_its_noise() {
    for seed in [0, 1, 77, u64::MAX] {
        assert_eq!(Grid::new_cell_automata_grid(seed, 50, 0), Grid::new_noise_grid(seed, 50));
    }
}

#[test]
fn a_cave_is_its_noise_smoothed() {
    let cave = Grid::new_cell_automata_grid(9, 50, 5);
    assert_eq!(cave, Grid::new_noise_grid(9, 50).smooth_times(5));
}

#[test]
fn a_cave_holds_wall_and_floor_only() {
    let cave = Grid::new_cell_automata_grid(3, 50, 5);
    assert_eq!(count(&cave, TileType::Wall) + count(&cave, TileType::Floor), 4096);
    assert!(count(&cave, TileType::Floor) > 0);
}

#[test]
fn a_cave_at_zero_percent_is_all_floor() {
    assert_eq!(Grid::new_cell_automata_grid(3, 0, 5), Grid::new_floor_grid());
}

#[test]
fn the_same_seed_gives_the_same_cave() {
    assert_eq!(Grid::new_cell_automata_grid(42, 50, 5), Grid::new_cell_automata_grid(42, 50, 5));
}

#[test]
fn another_seed_gives_another_cave() {
    assert_ne!(Grid::new_noise_grid(1, 50), Grid::new_noise_grid(2, 50));
}

#[test]
fn a_draw_below_the_share_makes_a_wall() {
    assert_eq!(noise_tile(0, 50), TileType::Wall);
    assert_eq!(noise_tile(49, 50), TileType::Wall);
    assert_eq!(noise_tile(50, 50), TileType::Floor);
    assert_eq!(noise_tile(99, 50), TileType::Floor);
    assert_eq!(noise_tile(0, 0), TileType::Floor);
    assert_eq!(noise_tile(99, 100), TileType::Wall);
}
