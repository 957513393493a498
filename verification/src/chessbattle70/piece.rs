//! Piece and player primitives.

use vstd::prelude::*;

verus! {

/// The eight piece types, numbered 1 to 8.
#[derive(Debug, Clone, Copy, PartialEq, Eq, Hash, Structural)]
pub enum PieceType {
    Pawn,
    Knight,
    Bishop,
    /// Slot 4; the Seirawan-Harper "Hawk" under other rules.
    Falcon,
    /// Slot 5; the Seirawan-Harper "Elephant" under other rules.
    Mammoth,
    Rook,
    Queen,
    King,
}

impl PieceType {
    pub open spec fn spec_value(self) -> u8 {
        match self {
            PieceType::Pawn => 1,
            PieceType::Knight => 3,
            PieceType::Bishop => 3,
            PieceType::Rook => 5,
            PieceType::Falcon => 6,
            PieceType::Mammoth => 7,
            PieceType::Queen => 9,
            PieceType::King => 2,
        }
    }

    /// Single-letter code used in setup layouts and rendering.
    pub fn code(self) -> (r: char)
        ensures
            r == match self {
                PieceType::Pawn => 'P',
                PieceType::Knight => 'N',
                PieceType::Bishop => 'B',
                PieceType::Falcon => 'F',
                PieceType::Mammoth => 'M',
                PieceType::Rook => 'R',
                PieceType::Queen => 'Q',
                PieceType::King => 'K',
            },
    {
        match self {
            PieceType::Pawn => 'P',
            PieceType::Knight => 'N',
            PieceType::Bishop => 'B',
            PieceType::Falcon => 'F',
            PieceType::Mammoth => 'M',
            PieceType::Rook => 'R',
            PieceType::Queen => 'Q',
            PieceType::King => 'K',
        }
    }

    /// The number of the type, 1 to 8.
    pub fn number(self) -> (r: u8)
        ensures
            r == match self {
                PieceType::Pawn => 1u8,
                PieceType::Knight => 2,
                PieceType::Bishop => 3,
                PieceType::Falcon => 4,
                PieceType::Mammoth => 5,
                PieceType::Rook => 6,
                PieceType::Queen => 7,
                PieceType::King => 8,
            },
    {
        match self {
            PieceType::Pawn => 1,
            PieceType::Knight => 2,
            PieceType::Bishop => 3,
            PieceType::Falcon => 4,
            PieceType::Mammoth => 5,
            PieceType::Rook => 6,
            PieceType::Queen => 7,
            PieceType::King => 8,
        }
    }

    /// Nominal point value, used by the material evaluation. The King's value is
    /// nominal only.
    pub fn value(self) -> (r: u8)
        ensures
            r == self.spec_value(),
    {
        match self {
            PieceType::Pawn => 1,
            PieceType::Knight => 3,
            PieceType::Bishop => 3,
            PieceType::Rook => 5,
            PieceType::Falcon => 6,
            PieceType::Mammoth => 7,
            PieceType::Queen => 9,
            PieceType::King => 2,
        }
    }
}

#[derive(Debug, Clone, Copy, PartialEq, Eq, Hash, Structural)]
pub enum Player {
    White,
    Black,
}

impl Player {
    pub open spec fn spec_opponent(self) -> Player {
        match self {
            Player::White => Player::Black,
            Player::Black => Player::White,
        }
    }

    pub open spec fn spec_forward(self) -> i8 {
        match self {
            Player::White => -1i8,
            Player::Black => 1,
        }
    }

    pub fn opponent(self) -> (r: Player)
        ensures
            r == self.spec_opponent(),
    {
        match self {
            Player::White => Player::Black,
            Player::Black => Player::White,
        }
    }

    /// The row direction this player's pawns advance: White toward row 0, Black
    /// toward the high rows.
    pub fn forward(self) -> (r: i8)
        ensures
            r == self.spec_forward(),
    {
        match self {
            Player::White => -1,
            Player::Black => 1,
        }
    }
}

#[derive(Debug, Clone, Copy, PartialEq, Eq, Hash, Structural)]
pub struct Piece {
    pub player: Player,
    pub kind: PieceType,
}

} // verus!
