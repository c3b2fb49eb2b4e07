//! Engine for a tile-merging grid puzzle.
//!
//! Tiles of numeric levels sit on a rectangular board and fall toward row 0
//! under gravity. Whenever three or more tiles of the same level form a
//! 4-directionally connected group, the group merges into a single tile of
//! the next level, and gravity and merging alternate until the board is
//! stable. A game wraps the board with a pair of pending tiles to place, and
//! a one-ply search bot picks the placement that maximizes the board score.

pub mod board;
pub mod groups;
pub mod merge;
pub mod game;
pub mod parse;
pub mod bot;
mod rng;

pub use board::Board;
pub use board::LEVEL_CAP;
pub use game::{Game, GameError, GameErrorKind, GameResult, Orientation};
pub use bot::{available_moves, best_move, score};
