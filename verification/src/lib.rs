//! Rules engine for the game of Go on a square board.

pub mod stone;
pub mod position;
pub mod connectivity;
pub mod counting;
pub mod rules;
pub mod placement;
pub mod laws;
pub mod sizes;
pub mod board;
