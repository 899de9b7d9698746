//! A Go Fish player that picks at random.

use vstd::prelude::*;

use rand::Rng;

use crate::card::{Card, Rank};
use crate::deck::Deck;

verus! {

/// A number drawn by `rand::Rng::gen_range(0..n)` on `rand::thread_rng()`.
///
/// `gen_range` panics on an empty range, hence `n > 0`. That the number lies in `0..n` is all
/// that is stated: which one comes depends on chance.
#[verifier::external_body]
fn random_below(n: usize) -> (r: usize)
    requires
        n > 0,
    ensures
        r < n,
{
    rand::thread_rng().gen_range(0..n)
}

/// A Go Fish bot: it asks a random other player for the rank of a random card of its hand.
pub struct RandomBot {
    name: String,
    hand: Deck,
    books: Vec<Deck>,
}

impl RandomBot {
    /// The name of the bot.
    pub closed spec fn name_view(self) -> Seq<char> {
        self.name@
    }

    /// The cards in the bot's hand.
    pub closed spec fn hand_view(self) -> Seq<Card> {
        self.hand@
    }

    /// The bot's books.
    pub closed spec fn books_view(self) -> Seq<Seq<Card>> {
        self.books@.map_values(|b: Deck| b@)
    }

    /// Creates a bot named `name` with no cards and no books.
    pub fn new(name: &str) -> (bot: RandomBot)
        ensures
            bot.name_view() == name@,
            bot.hand_view() == Seq::<Card>::empty(),
            bot.books_view() == Seq::<Seq<Card>>::empty(),
    {
        let bot = RandomBot { name: String::from_str(name), hand: Deck::empty(), books: Vec::new() };
        assert(bot.books_view() =~= Seq::<Seq<Card>>::empty());
        bot
    }

    /// The name of the bot.
    pub fn name(&self) -> (name: &str)
        ensures
            name@ == self.name_view(),
    {
        self.name.as_str()
    }

    /// The bot's hand.
    pub fn hand(&self) -> (hand: &Deck)
        ensures
            hand@ == self.hand_view(),
    {
        &self.hand
    }

    /// The bot's hand, to change.
    pub fn hand_mut(&mut self) -> (hand: &mut Deck)
        ensures
            (*hand)@ == old(self).hand_view(),
            final(self).hand_view() == (*final(hand))@,
            final(self).name_view() == old(self).name_view(),
            final(self).books_view() == old(self).books_view(),
    {
        &mut self.hand
    }

    /// The bot's books.
    pub fn books(&self) -> (books: &Vec<Deck>)
        ensures
            books@.map_values(|b: Deck| b@) == self.books_view(),
    {
        &self.books
    }

    /// Adds the book `book` to the bot's books.
    pub fn add_book(&mut self, book: Deck)
        ensures
            final(self).books_view() == old(self).books_view().push(book@),
            final(self).name_view() == old(self).name_view(),
            final(self).hand_view() == old(self).hand_view(),
    {
        self.books.push(book);
        assert(self.books_view() =~= old(self).books_view().push(book@));
    }

    /// Picks the rank of a random card of the bot's hand (`None` where the hand is empty).
    pub fn pick(&self) -> (rank: Option<Rank>)
        ensures
            rank is None <==> self.hand_view().len() == 0,
            rank matches Some(r) ==> exists|i: int|
                0 <= i < self.hand_view().len() && #[trigger] self.hand_view()[i].rank == r,
    {
        let amount_of_cards = self.hand.len();
        if amount_of_cards == 0 {
            return None;
        }
        let random_index = random_below(amount_of_cards);
        let card = self.hand.card_at_index(random_index);
        assert(self.hand_view()[random_index as int].rank == card.rank);
        Some(card.rank)
    }

    /// Picks a random player of `other_players` to ask, and returns their index (the first of
    /// the pair).
    pub fn ask(&self, other_players: Vec<(usize, &str)>) -> (player: usize)
        requires
            other_players@.len() > 0,
        ensures
            exists|i: int| 0 <= i < other_players@.len() && #[trigger] other_players@[i].0 == player,
    {
        let random_player_index = random_below(other_players.len());
        other_players[random_player_index].0
    }
}

} // verus!
