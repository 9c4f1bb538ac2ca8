//! The two players and the pieces they own.
use vstd::prelude::*;

verus! {

/// One of the two players.
#[derive(Clone, Copy, Debug, PartialEq, Eq, Hash, Structural)]
pub enum Player {
    White,
    Black,
}

/// What a point of the board can hold.
#[derive(Clone, Copy, Debug, PartialEq, Eq, Hash, Structural)]
pub enum Piece {
    Ring(Player),
    Marker(Player),
}

/// The opponent of `p`.
pub open spec fn opponent(p: Player) -> Player {
    match p {
        Player::White => Player::Black,
        Player::Black => Player::White,
    }
}

impl Player {
    /// Returns the opponent.
    pub fn other(&self) -> (o: Player)
        ensures
            o == opponent(*self),
            o != *self,
            opponent(o) == *self,
    {
        match self {
            Player::White => Player::Black,
            Player::Black => Player::White,
        }
    }
}

impl Piece {
    /// The player who owns the piece.
    pub open spec fn owner(self) -> Player {
        match self {
            Piece::Ring(p) => p,
            Piece::Marker(p) => p,
        }
    }

    /// Returns the player who owns the piece.
    pub fn player(&self) -> (p: Player)
        ensures
            p == self.owner(),
    {
        match self {
            Piece::Ring(p) => *p,
            Piece::Marker(p) => *p,
        }
    }
}

/// Turning a player's other twice gives the player back.
pub proof fn lemma_opponent_involutive(p: Player)
    ensures
        opponent(opponent(p)) == p,
        opponent(p) != p,
{
}

} // verus!
