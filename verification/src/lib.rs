//! A Connect-Four-style dropping-piece game engine: board representations,
//! 4-in-a-row detection, and an exhaustive negamax/alpha-beta evaluation of
//! positions under perfect play.

mod bits;
pub mod laws;
pub mod model;
pub mod search;
pub mod state;

pub use state::{AltBitBoard, BitBoard, Board, BoardSearch, FlatBoard, HistBoard, MoveError, Outcome, Piece};
