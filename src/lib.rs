//! The sliding-tile merge game on a four by four board: a verified move engine
//! and the controller that plays it.

pub mod board;
pub mod laws;
pub mod game;
mod random;
pub mod render;
