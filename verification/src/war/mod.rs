//! The card game War.

pub mod players;
pub mod game;
