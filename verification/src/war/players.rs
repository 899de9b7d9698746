//! The players of War.

pub mod bot;
pub mod human;

use vstd::prelude::*;

use crate::card::Card;
use crate::deck::Deck;
use bot::WarBot;
use human::HumanWarPlayer;

verus! {

/// The number of cards a player wages when asked for `n`: `n`, or all they hold.
pub open spec fn wage_count(hand: Seq<Card>, n: int) -> int {
    if hand.len() < n {
        hand.len() as int
    } else {
        n
    }
}

/// The cards a player with `hand` wages when asked for `n` cards: they draw up to `n` cards
/// from the top, the first drawn at the bottom of what they wage.
pub open spec fn war_draw_cards(hand: Seq<Card>, n: int) -> Seq<Card> {
    hand.subrange(hand.len() - wage_count(hand, n), hand.len() as int).reverse()
}

/// The hand left after waging `n` cards.
pub open spec fn war_draw_rest(hand: Seq<Card>, n: int) -> Seq<Card> {
    hand.take(hand.len() - wage_count(hand, n))
}

/// A player of War: a person at the terminal or a bot.
pub enum WarPlayer {
    Human(HumanWarPlayer),
    Bot(WarBot),
}

impl WarPlayer {
    /// The cards in the player's hand.
    pub open spec fn hand_of(self) -> Seq<Card> {
        match self {
            WarPlayer::Human(p) => p.hand_view(),
            WarPlayer::Bot(b) => b.hand_view(),
        }
    }

    /// The player's name.
    pub open spec fn name_of(self) -> Seq<char> {
        match self {
            WarPlayer::Human(p) => p.name_view(),
            WarPlayer::Bot(b) => b.name_view(),
        }
    }

    /// The name of the player.
    pub fn name(&self) -> (name: &str)
        ensures
            name@ == self.name_of(),
    {
        match self {
            WarPlayer::Human(p) => p.name(),
            WarPlayer::Bot(b) => b.name(),
        }
    }

    /// The player's hand.
    pub fn hand(&self) -> (hand: &Deck)
        ensures
            hand@ == self.hand_of(),
    {
        match self {
            WarPlayer::Human(p) => p.hand(),
            WarPlayer::Bot(b) => b.hand(),
        }
    }

    /// The player's hand, to change.
    pub fn hand_mut(&mut self) -> (hand: &mut Deck)
        ensures
            (*hand)@ == old(self).hand_of(),
            final(self).hand_of() == (*final(hand))@,
            final(self).name_of() == old(self).name_of(),
            final(self).inform() == old(self).inform(),
    {
        match self {
            WarPlayer::Human(p) => p.hand_mut(),
            WarPlayer::Bot(b) => b.hand_mut(),
        }
    }

    /// Whether the game prints information for this player (a person at the terminal).
    pub open spec fn inform(self) -> bool {
        self is Human
    }

    /// Whether the game prints information for this player (a person at the terminal).
    pub fn informs(&self) -> (inform: bool)
        ensures
            inform == self.inform(),
    {
        match self {
            WarPlayer::Human(_) => true,
            WarPlayer::Bot(_) => false,
        }
    }

    /// Draws the top card of the player's hand (`None` where it is empty).
    pub fn draw(&mut self) -> (card: Option<Card>)
        ensures
            old(self).hand_of().len() == 0 ==> card is None && final(self).hand_of() == old(self).hand_of(),
            old(self).hand_of().len() > 0 ==> card == Some(old(self).hand_of().last()) && final(self).hand_of() == old(self).hand_of().drop_last(),
            final(self).name_of() == old(self).name_of(),
            final(self).inform() == old(self).inform(),
    {
        self.hand_mut().draw()
    }

    /// Draws up to `amount_of_cards` cards from the top of the hand to wage them in a war; the
    /// first card drawn is at the bottom of the result, the last drawn (the one that is turned
    /// over) at its top.
    pub fn war_draw(&mut self, amount_of_cards: usize) -> (drawn: Deck)
        ensures
            drawn@ == war_draw_cards(old(self).hand_of(), amount_of_cards as int),
            final(self).hand_of() == war_draw_rest(old(self).hand_of(), amount_of_cards as int),
            final(self).name_of() == old(self).name_of(),
            final(self).inform() == old(self).inform(),
    {
        let ghost hand = self.hand_of();
        let mut drawn_cards = Deck::empty();
        if self.hand().len() == 0 {
            assert(war_draw_cards(hand, amount_of_cards as int) =~= Seq::<Card>::empty());
            assert(war_draw_rest(hand, amount_of_cards as int) =~= hand);
            return drawn_cards;
        }
        let mut i: usize = 0;
        while i < amount_of_cards && !self.hand().is_empty()
            invariant
                i <= amount_of_cards,
                i <= hand.len(),
                hand.len() > 0,
                self.hand_of() == hand.take(hand.len() - i),
                drawn_cards@ == hand.subrange(hand.len() - i, hand.len() as int).reverse(),
                self.name_of() == old(self).name_of(),
                self.inform() == old(self).inform(),
                hand == old(self).hand_of(),
            decreases amount_of_cards - i,
        {
            if let Some(drawn_card) = self.draw() {
                proof {
                    let j = hand.len() - i - 1;
                    assert(hand.take(hand.len() - i).drop_last() =~= hand.take(j));
                    assert(hand.subrange(j, hand.len() as int).reverse() =~= hand.subrange(
                        hand.len() - i,
                        hand.len() as int,
                    ).reverse().push(hand[j]));
                }
                drawn_cards.stack(drawn_card);
            }
            i += 1;
        }
        // whether the loop ran out of cards or drew them all, `i` is the number drawn
        assert(i == wage_count(hand, amount_of_cards as int));
        drawn_cards
    }
}

} // verus!
