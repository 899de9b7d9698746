//! The players of Blackjack.

use vstd::prelude::*;

use crate::deck::Deck;
use super::game::Action;

verus! {

/// A player of Blackjack, for users of the library to implement.
///
/// Money is counted in cents.
pub trait BlackjackPlayer {
    /// The name of the player.
    fn name(&self) -> &str;

    /// How much money the player has.
    fn bankroll(&self) -> usize;

    /// Takes a bet from the player, from `betting_minimum` to `betting_maximum`, and returns it.
    fn bet(&mut self, betting_minimum: usize, betting_maximum: usize) -> usize;

    /// Pays `amount` to the player.
    fn pay(&mut self, amount: usize);

    /// The player's choice among `actions` for the hand `hand`.
    fn choose_action(&self, hand: &Deck, actions: &[Action]) -> Action;
}

} // verus!
