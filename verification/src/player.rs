//! The three-valued cell tag: a black stone, a white stone, or no stone.

use vstd::prelude::*;

verus! {

/// The contents of one board point.  `Empty` is a board value (no stone),
/// not the absence of a field.
#[derive(Clone, Copy, Debug, PartialEq, Eq, Structural)]
pub enum Player {
    Black,
    White,
    Empty,
}

/// The opposing color; `Empty` has no opponent and maps to itself.
pub open spec fn opposite_of(p: Player) -> Player {
    match p {
        Player::Black => Player::White,
        Player::White => Player::Black,
        Player::Empty => Player::Empty,
    }
}

impl Player {
    /// The opposing color, as executable code.
    pub fn opposite(self) -> (r: Player)
        ensures
            r == opposite_of(self),
    {
        match self {
            Player::Black => Player::White,
            Player::White => Player::Black,
            Player::Empty => Player::Empty,
        }
    }

    /// True iff this is an actual stone color (Black or White).
    pub open spec fn is_stone(self) -> bool {
        self == Player::Black || self == Player::White
    }
}

/// Turn alternation law: handing the turn to the opposing color twice
/// returns it to the original color, so the mover of a game alternates
/// Black, White, Black, … ply after ply.
pub proof fn lemma_opposite_involution(p: Player)
    ensures
        opposite_of(opposite_of(p)) == p,
{
}

impl Default for Player {
    /// A fresh cell holds no stone.
    fn default() -> (r: Self)
        ensures
            r == Player::Empty,
    {
        Player::Empty
    }
}

} // verus!
