//! Search for move sequences that solve a block-pushing grid puzzle.
pub mod board;
pub mod search;
pub mod game;
