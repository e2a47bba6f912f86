//! The phases a session of the game moves through.

use vstd::prelude::*;

verus! {

#[derive(Copy, Clone, PartialEq, Eq, Debug, Hash, Structural)]
pub enum GameState {
    Menu,
    Playing,
    Paused,
    GameOver,
    Quit,
}

impl Default for GameState {
    /// A session starts in the menu.
    fn default() -> (state: GameState)
        ensures
            state == GameState::Menu,
    {
        GameState::Menu
    }
}

} // verus!
