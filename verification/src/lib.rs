pub mod board;
pub mod clock;
pub mod evaluate;
pub mod text;
pub mod transposition;
pub mod uci;
pub mod search;
pub mod settings;
pub mod stockfish;
pub mod storage;
pub mod panel;
pub mod symmetry;
