//! Blackjack: hand values, the opening deal, what a player may do, and the opening settlement.

pub mod game;
pub mod players;
