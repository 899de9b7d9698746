//! Card games (Go Fish, War, Blackjack) played in the terminal: cards, decks, their text, and the games'
//! rules.

pub mod input;
pub mod card;
pub mod text;
pub mod deck;
pub mod war;
pub mod go_fish;
pub mod blackjack;

use vstd::prelude::*;

verus! {

/// What running an item of a menu asks the menu to do next.
#[derive(Copy, Clone, Debug, PartialEq, Eq, Structural)]
pub enum MenuItemResponse {
    /// The menu goes on.
    Continue,
    /// The menu stops.
    Quit,
}

} // verus!
