//! Core of a falling-block puzzle game: a fixed-size grid of coloured
//! cells, a movable multi-cell piece, legality checking with wall-kick
//! recovery, and full-row clearing with gravity compaction.

pub mod cell;
pub mod engine;
pub mod flat;
pub mod grid;
pub mod laws;
pub mod piece;
pub mod shape;

pub use cell::BlockColour;
pub use grid::Board;
pub use piece::Tetromino;
pub use shape::Shape;
