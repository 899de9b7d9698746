//! The card game Go Fish.

pub mod players;
pub mod game;
