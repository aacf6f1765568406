//! Plain values handed across the library boundary: a board coordinate, a
//! snapshot of the game state, and the final result.

use vstd::prelude::*;

verus! {

/// A board coordinate.
#[derive(Debug, Clone, Copy, PartialEq, Eq, Structural)]
pub struct Position {
    pub row: u8,
    pub col: u8,
}

/// Public game state returned from the session API.
#[derive(Debug, Clone, PartialEq, Eq)]
pub struct GameState {
    /// One byte per cell: 0 empty, 1 black, 2 white.
    pub board: Vec<u8>,
    pub current_player: u8,
    pub black_count: u8,
    pub white_count: u8,
    pub is_game_over: bool,
    /// True when the previous action was a pass.
    pub is_pass: bool,
    /// Flipped positions (0..=63) of the previous move; empty after a pass.
    pub flipped: Vec<u8>,
}

/// Final result after game over: winner is 1 (black), 2 (white) or 0 (draw).
#[derive(Debug, Clone, Copy, PartialEq, Eq, Structural)]
pub struct GameResult {
    pub winner: u8,
    pub black_count: u8,
    pub white_count: u8,
}

} // verus!
