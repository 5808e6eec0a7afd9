//! The phases of a turn.

use vstd::prelude::*;

verus! {

/// Phase of the game. `Wait` is the first phase; `Win` and `Lose` end the
/// game.
#[derive(Copy, Clone, Debug, PartialEq, Eq, Structural, Hash)]
pub enum GameState {
    Win,
    Lose,
    Wait,
    Process,
    Movement,
    Decision,
}

impl Default for GameState {
    fn default() -> (state: GameState)
        ensures
            state == GameState::Wait,
    {
        GameState::Wait
    }
}

impl GameState {
    /// Whether the game is over in this phase.
    pub open spec fn terminal(self) -> bool {
        self == GameState::Win || self == GameState::Lose
    }

    /// Whether the game is over in this phase.
    pub fn is_terminal(&self) -> (over: bool)
        ensures
            over == self.terminal(),
    {
        match self {
            GameState::Win => true,
            GameState::Lose => true,
            _ => false,
        }
    }
}

} // verus!
