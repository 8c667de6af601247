//! The rules of a falling-block puzzle game: pieces, the board they fall on,
//! line clearing, levels and the preview panels.

pub mod pieces;
pub mod game;

pub use game::{Block, Game};
