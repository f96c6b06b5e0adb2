pub mod attacks;
pub mod chess_move;
pub mod castle_rights;
pub mod castling_rooks;
pub mod board;
pub mod fen;
pub mod move_order;
pub mod movegen;
pub mod see;
pub mod check;
pub mod fen_round_trip;
