//! A War player that needs no input.

use vstd::prelude::*;

use crate::deck::Deck;

verus! {

/// A War bot: it draws its cards without being asked.
pub struct WarBot {
    name: String,
    pub hand: Deck,
}

impl WarBot {
    /// The name of the bot.
    pub closed spec fn name_view(self) -> Seq<char> {
        self.name@
    }

    /// The cards in the bot's hand.
    pub closed spec fn hand_view(self) -> Seq<crate::card::Card> {
        self.hand@
    }

    /// Creates a bot named `name` with no cards.
    pub fn new(name: &str) -> (bot: WarBot)
        ensures
            bot.name_view() == name@,
            bot.hand_view() == Seq::<crate::card::Card>::empty(),
    {
        WarBot { name: String::from_str(name), hand: Deck::empty() }
    }

    /// The name of the bot.
    pub fn name(&self) -> (name: &str)
        ensures
            name@ == self.name_view(),
    {
        self.name.as_str()
    }

    /// The bot's hand.
    pub fn hand(&self) -> (hand: &Deck)
        ensures
            hand@ == self.hand_view(),
    {
        &self.hand
    }

    /// The bot's hand, to change.
    pub fn hand_mut(&mut self) -> (hand: &mut Deck)
        ensures
            (*hand)@ == old(self).hand_view(),
            final(self).hand_view() == (*final(hand))@,
            final(self).name_view() == old(self).name_view(),
    {
        &mut self.hand
    }
}

} // verus!
