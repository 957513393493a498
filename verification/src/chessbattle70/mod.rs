//! ChessBattle70: chess on a 7-file by 10-rank board with two extra piece types,
//! the Falcon and the Mammoth, whose movement follows one of three rule sets.
//! Castling (king unmoved and not in or passing through check, rook started on a
//! physical corner), en passant and promotion to Queen are supported, as are check,
//! checkmate and stalemate, two fixed openings and d12-rolled random armies.

pub mod board;
pub mod check;
pub mod game;
pub mod movegen;
pub mod moves;
pub mod piece;
pub mod rules;
pub mod setup;

pub use board::{Board, Pos, HEIGHT, WIDTH};
pub use game::Game;
pub use moves::{Captured, Move, SpecialMove};
pub use piece::{Piece, PieceType, Player};
pub use rules::RaptorPachydermRules;
