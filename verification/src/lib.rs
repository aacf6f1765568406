//! Core of an 8x8 Reversi engine: a bit-packed board with verified move
//! legality and capture resolution, an N-Tuple positional evaluator loaded
//! from a checksummed binary blob, and a time-bounded iterative-deepening
//! negamax searcher with an exact endgame solver.

pub mod bits;
pub mod board;
pub mod ntuple;
pub mod search;
pub mod game;
pub mod types;
