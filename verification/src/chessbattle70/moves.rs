//! Move representation.

use vstd::prelude::*;
use super::board::Pos;
use super::piece::Piece;

verus! {

#[derive(Debug, Clone, Copy, PartialEq, Eq, Structural)]
pub enum SpecialMove {
    Normal,
    DoublePawnStep,
    EnPassant { captured_pawn: Pos },
    /// The rook's origin and destination travel with the move.
    Castle { rook_from: Pos, rook_to: Pos },
}

/// A captured piece and the square it stood on.
#[derive(Debug, Clone, Copy, PartialEq, Eq, Structural)]
pub struct Captured(pub Pos, pub Piece);

#[derive(Debug, Clone, Copy, PartialEq, Eq, Structural)]
pub struct Move {
    pub from: Pos,
    pub to: Pos,
    /// The piece as it stands on `to` after the move (a promoted pawn is a Queen).
    pub piece: Piece,
    /// The captured piece and its own square: usually `to`, but not for en passant
    /// or a Mammoth's trample.
    pub captured: Option<Captured>,
    pub special: SpecialMove,
}

impl Move {
    /// Every square the move touches is on the board.
    pub open spec fn well_formed(self) -> bool {
        &&& self.from.spec_in_bounds()
        &&& self.to.spec_in_bounds()
        &&& (self.captured matches Some(c) ==> c.0.spec_in_bounds())
        &&& (self.special matches SpecialMove::Castle { rook_from, rook_to } ==> rook_from.spec_in_bounds()
            && rook_to.spec_in_bounds())
    }
}

} // verus!
