//! Procedural generation and connectivity validation of tile-based dungeon levels.

pub mod cave;
mod dice;
pub mod error;
pub mod floor;
pub mod game_state;
pub mod game_world;
pub mod grid;
pub mod reach;
pub mod rooms;
pub mod stairs;
pub mod text;
pub mod tiles;
