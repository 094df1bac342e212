pub mod position;
pub mod board;
pub mod matching;
pub mod match_board;
pub mod piece;
pub mod bitboard;
mod text;

pub use position::{Col, ColError, Pos, PosError};
pub use board::{BoardError, BoardState, Piece};
pub use matching::{Match, MatchMove, MatchPattern};
pub use match_board::MatchBoard;
