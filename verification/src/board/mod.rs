// The board: everything that is only about the position and the moves it allows.
pub mod piece;
pub mod square;
pub mod castling;
pub mod chess_move;
pub mod rules;
pub mod zobrist;
pub mod hashing;
pub mod board;
pub mod movegen;
pub mod status;
pub mod attacks;
pub mod fen;
