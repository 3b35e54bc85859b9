use vstd::prelude::*;

verus! {

/// One of the two players that can occupy a cell.
#[derive(Clone, Copy, PartialEq, Eq, Structural, Debug, PartialOrd)]
pub enum Player {
    Naught,
    Cross,
}

/// A single mark on the grid: a coordinate together with the player who
/// occupies it.
#[derive(Clone, Copy, PartialEq, Eq, Structural, Debug, PartialOrd)]
pub struct Play {
    pub x: i128,
    pub y: i128,
    pub player: Player,
}

impl Play {
    /// The coordinate of this play as a mathematical pair.
    pub open spec fn coord(self) -> (int, int) {
        (self.x as int, self.y as int)
    }
}

/// The run length a player needs to win the game.
pub const WINNING_LENGTH: usize = 5;

} // verus!
