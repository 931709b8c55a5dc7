//! Outcome of a game.
use vstd::prelude::*;

verus! {

#[derive(Clone, PartialEq, Eq, Structural)]
pub enum GameState {
    InProgress,
    WhiteWins,
    BlackWins,
    Draw,
}

impl GameState {
    /// A sentence describing the state.
    pub fn get_game_state_str(&self) -> (r: &'static str)
        ensures
            r@ == (match self {
                GameState::InProgress => "Game is still in progress."@,
                GameState::WhiteWins => "White wins!"@,
                GameState::BlackWins => "Black wins!"@,
                GameState::Draw => "Game is drawn!"@,
            }),
    {
        match self {
            GameState::InProgress => "Game is still in progress.",
            GameState::WhiteWins => "White wins!",
            GameState::BlackWins => "Black wins!",
            GameState::Draw => "Game is drawn!",
        }
    }
}

} // verus!
