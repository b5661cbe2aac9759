//! Match engine of a two-player naval combat game: ship placement on a
//! 10x10 grid with a one-cell buffer between ships, the textual message
//! codec, and the match state that accepts the players' moves.

pub mod board;
pub mod room;
pub mod generator;
pub mod text;
pub mod codec;
pub mod game;
