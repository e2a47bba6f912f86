use dungeon_grid::error::DungeonError;
use dungeon_grid::floor::{Floor, FloorType};
use dungeon_grid::game_state::GameState;
use dungeon_grid::game_world::GameWorld;
use dungeon_grid::grid::Grid;
use dungeon_grid::tiles::TileType;

#[test]
fn a_new_world_is_empty() {
    let world = GameWorld::new();
    assert_eq!(world.level_count(), 0);
    assert_eq!(world.player(), None);
    assert_eq!(world.grid(0).err(), Some(DungeonError::IndexOutOfRange));
}

#[test]
fn levels_are_numbered_in_the_order_they_are_added() {
    let mut world = GameWorld::new();
    assert_eq!(world.add_grid(Grid::new_floor_grid()), 0);
    assert_eq!(world.add_grid(Grid::new_filled(TileType::Wall)), 1);
    assert_eq!(world.add_grid(Grid::new_filled(TileType::Lava)), 2);
    assert_eq!(world.level_count(), 3);
    assert_eq!(world.grid(0).ok(), Some(&Grid::new_floor_grid()));
    assert_eq!(world.grid(1).ok(), Some(&Grid::new_filled(TileType::Wall)));
    assert_eq!(world.grid(2).ok(), Some(&Grid::new_filled(TileType::Lava)));
}

#[test]
fn a_level_that_is_not_there_is_out_of_range() {
    let mut world = GameWorld::new();
    world.add_grid(Grid::new_floor_grid());
    assert_eq!(world.grid(1).err(), Some(DungeonError::IndexOutOfRange));
    assert_eq!(world.grid(usize::MAX).err(), Some(DungeonError::IndexOutOfRange));
}

#[test]
fn the_player_is_set_and_cleared() {
    let mut world = GameWorld::new();
    world.add_grid(Grid::new_floor_grid());
    world.set_player(Some(0x0000_0001_0000_0007));
    assert_eq!(world.player(), Some(0x0000_0001_0000_0007));
    assert_eq!(world.level_count(), 1);
    world.set_player(None);
    assert_eq!(world.player(), None);
}

#[test]
fn adding_a_level_keeps_the_player() {
    let mut world = GameWorld::new();
    world.set_player(Some(5));
    world.add_grid(Grid::new_floor_grid());
    assert_eq!(world.player(), Some(5));
}

#[test]
fn floors_compare_by_grid_kind_and_depth() {
    let floor = Floor { grid: Grid::new_floor_grid(), floor_type: FloorType::Dungeon, level: 3 };
    assert_eq!(floor.clone(), floor);
    let town = Floor { grid: Grid::new_floor_grid(), floor_type: FloorType::Town, level: 3 };
    assert_ne!(town, floor);
    let deeper = Floor { grid: Grid::new_floor_grid(), floor_type: FloorType::Dungeon, level: 4 };
    assert_ne!(deeper, floor);
    let walled =
        Floor { grid: Grid::new_filled(TileType::Wall), floor_type: FloorType::Dungeon, level: 3 };
    assert_ne!(walled, floor);
}

#[test]
fn a_session_starts_in_the_menu() {
    assert_eq!(GameState::default(), GameState::Menu);
}

#[test]
fn a_generated_level_is_kept_as_it_was_made() {
    let mut world = GameWorld::new();
    let grid = Grid::new_cell_automata_grid(6, 50, 5);
    let level = world.add_grid(grid.clone());
    assert_eq!(world.grid(level).ok(), Some(&grid));
}
