//! A War player played by a person at the terminal.

use vstd::prelude::*;

use crate::deck::Deck;

verus! {

/// A person playing War: the game waits for them before each draw.
pub struct HumanWarPlayer {
    name: String,
    pub hand: Deck,
}

impl HumanWarPlayer {
    /// The name of the player.
    pub closed spec fn name_view(self) -> Seq<char> {
        self.name@
    }

    /// The cards in the player's hand.
    pub closed spec fn hand_view(self) -> Seq<crate::card::Card> {
        self.hand@
    }

    /// Creates a player named `name` with no cards.
    pub fn new(name: &str) -> (player: HumanWarPlayer)
        ensures
            player.name_view() == name@,
            player.hand_view() == Seq::<crate::card::Card>::empty(),
    {
        HumanWarPlayer { name: String::from_str(name), hand: Deck::empty() }
    }

    /// The name of the player.
    pub fn name(&self) -> (name: &str)
        ensures
            name@ == self.name_view(),
    {
        self.name.as_str()
    }

    /// The player's hand.
    pub fn hand(&self) -> (hand: &Deck)
        ensures
            hand@ == self.hand_view(),
    {
        &self.hand
    }

    /// The player's hand, to change.
    pub fn hand_mut(&mut self) -> (hand: &mut Deck)
        ensures
            (*hand)@ == old(self).hand_view(),
            final(self).hand_view() == (*final(hand))@,
            final(self).name_view() == old(self).name_view(),
    {
        &mut self.hand
    }
}

} // verus!
