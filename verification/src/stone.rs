//! Stones and players.

use vstd::prelude::*;

verus! {

/// What a single point of the board holds.
#[derive(Clone, Copy, PartialEq, Eq, Debug, Structural)]
pub enum Stone {
    Black,
    White,
    Empty,
}

/// The side whose turn it is.
#[derive(Clone, Copy, PartialEq, Eq, Debug, Structural)]
pub enum Player {
    Black,
    White,
}

impl Player {
    /// The opposing side.
    pub open spec fn opponent(self) -> Player {
        match self {
            Player::Black => Player::White,
            Player::White => Player::Black,
        }
    }

    /// The colour of the stones this side plays.
    pub open spec fn stone(self) -> Stone {
        match self {
            Player::Black => Stone::Black,
            Player::White => Stone::White,
        }
    }

    /// Returns the opposing side.
    pub fn other(&self) -> (out: Player)
        ensures
            out == self.opponent(),
    {
        match self {
            Player::Black => Player::White,
            Player::White => Player::Black,
        }
    }

    /// Returns the colour of the stones this side plays.
    pub fn to_stone(&self) -> (out: Stone)
        ensures
            out == self.stone(),
    {
        match self {
            Player::Black => Stone::Black,
            Player::White => Stone::White,
        }
    }
}

} // verus!
