//! The four states of a board cell.

use vstd::prelude::*;

verus! {

/// State of one cell of the bordered board.
#[derive(Copy, Clone, Debug, Hash, PartialEq, Eq, Structural)]
pub enum Stone {
    Empty,
    Black,
    White,
    Border,
}

pub const EMPTY: Stone = Stone::Empty;

pub const BLACK: Stone = Stone::Black;

pub const WHITE: Stone = Stone::White;

pub const BORDER: Stone = Stone::Border;

impl Stone {
    /// The opponent as a mathematical function.
    pub open spec fn spec_opponent(self) -> Stone {
        match self {
            Stone::Empty => Stone::Empty,
            Stone::Black => Stone::White,
            Stone::White => Stone::Black,
            Stone::Border => Stone::Border,
        }
    }

    /// True for the two playing colors.
    pub open spec fn is_color(self) -> bool {
        self == Stone::Black || self == Stone::White
    }

    /// The other side for the two colors; `Empty` and `Border` map to themselves.
    #[verifier::when_used_as_spec(spec_opponent)]
    pub fn opponent(self) -> (r: Stone)
        ensures
            r == self.spec_opponent(),
    {
        match self {
            Stone::Empty => Stone::Empty,
            Stone::Black => Stone::White,
            Stone::White => Stone::Black,
            Stone::Border => Stone::Border,
        }
    }
}

/// Taking the opponent twice gives back the stone, the two colors are each
/// other's opponent, and `Empty` and `Border` are their own.
pub proof fn lemma_opponent_involutive(s: Stone)
    ensures
        s.spec_opponent().spec_opponent() == s,
        s.is_color() ==> s.spec_opponent() != s && s.spec_opponent().is_color(),
        !s.is_color() ==> s.spec_opponent() == s,
{
}

} // verus!
