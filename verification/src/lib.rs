pub mod text;
pub mod san;
pub mod pgn;
pub mod board;
pub mod lint;
