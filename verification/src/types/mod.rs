pub mod bitboard;
pub mod piece;
pub mod square;

pub use bitboard::Bitboard;
pub use piece::{Color, Piece, PieceType};
pub use square::{Square, SquareParseErr};
