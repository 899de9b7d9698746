//! A Go Fish player played by a person at the terminal.

use vstd::prelude::*;

use crate::card::{Card, Rank};
use crate::deck::Deck;
use crate::input::{parse_count, spec_parse_count};
use crate::text::chars_of;

verus! {

/// The lower case of a character as Unicode lower-casing gives it, for the characters that
/// lower-case to a character of a rank's text: an ASCII capital letter gives its small letter,
/// and the Kelvin sign gives `k`; any other character is taken as it is (it lower-cases to no
/// character of a rank's text other than itself).
pub open spec fn lower_char(c: char) -> char {
    if 'A' <= c <= 'Z' {
        ((c as u32) + 32) as char
    } else if c == '\u{212A}' {
        'k'
    } else {
        c
    }
}

/// Whether the answer `answer` names the rank `rank`: lower-cased character by character, it
/// is the rank's text lower-cased.
pub open spec fn names_rank(answer: Seq<char>, rank: Rank) -> bool {
    &&& answer.len() == rank.symbol().len()
    &&& forall|i: int|
        0 <= i < answer.len() ==> #[trigger] lower_char(answer[i]) == lower_char(rank.symbol()[i])
}

/// Whether the answer `answer` (as characters) names the rank `rank`.
fn answer_names_rank(answer: &Vec<char>, rank: Rank) -> (names: bool)
    ensures
        names == names_rank(answer@, rank),
{
    let text = rank.to_string();
    let symbol = chars_of(text.as_str());
    if answer.len() != symbol.len() {
        return false;
    }
    let mut i: usize = 0;
    while i < answer.len()
        invariant
            i <= answer@.len(),
            answer@.len() == symbol@.len(),
            symbol@ == rank.symbol(),
            forall|k: int| 0 <= k < i ==> #[trigger] lower_char(answer@[k]) == lower_char(symbol@[k]),
        decreases answer@.len() - i,
    {
        if lower(answer[i]) != lower(symbol[i]) {
            return false;
        }
        i += 1;
    }
    true
}

/// The lower case of `c` as `lower_char` gives it.
fn lower(c: char) -> (l: char)
    ensures
        l == lower_char(c),
{
    if 'A' <= c && c <= 'Z' {
        ((c as u8) + 32) as char
    } else if c == '\u{212A}' {
        'k'
    } else {
        c
    }
}

/// A person playing Go Fish: they pick whom to ask and what rank at the terminal.
pub struct HumanPlayer {
    name: String,
    hand: Deck,
    books: Vec<Deck>,
}

impl HumanPlayer {
    /// The name of the player.
    pub closed spec fn name_view(self) -> Seq<char> {
        self.name@
    }

    /// The cards in the player's hand.
    pub closed spec fn hand_view(self) -> Seq<Card> {
        self.hand@
    }

    /// The player's books.
    pub closed spec fn books_view(self) -> Seq<Seq<Card>> {
        self.books@.map_values(|b: Deck| b@)
    }

    /// Creates a player named `name` with no cards and no books.
    pub fn new(name: &str) -> (player: HumanPlayer)
        ensures
            player.name_view() == name@,
            player.hand_view() == Seq::<Card>::empty(),
            player.books_view() == Seq::<Seq<Card>>::empty(),
    {
        let player = HumanPlayer { name: String::from_str(name), hand: Deck::empty(), books: Vec::new() };
        assert(player.books_view() =~= Seq::<Seq<Card>>::empty());
        player
    }

    /// The rank the player asks for when they answer `answer`: the rank of the first card in
    /// their hand whose rank the answer names, in any case (`None` where no card's rank is
    /// named); see `names_rank`.
    pub fn rank_from_answer(&self, answer: &str) -> (rank: Option<Rank>)
        ensures
            match rank {
                Some(r) => names_rank(answer@, r) && exists|i: int|
                    0 <= i < self.hand_view().len() && #[trigger] self.hand_view()[i].rank == r,
                None => forall|i: int|
                    0 <= i < self.hand_view().len() ==> !names_rank(
                        answer@,
                        #[trigger] self.hand_view()[i].rank,
                    ),
            },
    {
        let chars = chars_of(answer);
        let mut i: usize = 0;
        while i < self.hand.len()
            invariant
                i <= self.hand@.len(),
                chars@ == answer@,
                forall|k: int| 0 <= k < i ==> !names_rank(answer@, #[trigger] self.hand@[k].rank),
            decreases self.hand@.len() - i,
        {
            let card = self.hand.card_at_index(i);
            if answer_names_rank(&chars, card.rank) {
                return Some(card.rank);
            }
            i += 1;
        }
        None
    }

    /// The player a person asks for cards, among `other_players` (index and name), when they
    /// answer `answer`: the only other player without reading the answer; else the player
    /// whose number in the list (counting from 1) the answer spells (`None` where it spells no
    /// such number).
    pub fn player_from_answer(other_players: &[(usize, &str)], answer: &str) -> (choice: Option<
        usize,
    >)
        ensures
            other_players@.len() == 1 ==> choice == Some(other_players@[0].0),
            other_players@.len() != 1 ==> (choice matches Some(p) ==> (spec_parse_count(answer@) matches Some(
                m,
            ) && 1 <= m <= other_players@.len() && p == other_players@[m - 1].0)),
            other_players@.len() != 1 ==> (choice is None <==> !(spec_parse_count(answer@) matches Some(
                m,
            ) && 1 <= m <= other_players@.len())),
    {
        let n = other_players.len();
        if n == 1 {
            return Some(other_players[0].0);
        }
        match parse_count(answer) {
            Some(i) => {
                if 1 <= i && i <= n {
                    Some(other_players[i - 1].0)
                } else {
                    None
                }
            },
            None => None,
        }
    }

    /// The name of the player.
    pub fn name(&self) -> (name: &str)
        ensures
            name@ == self.name_view(),
    {
        self.name.as_str()
    }

    /// The player's hand.
    pub fn hand(&self) -> (hand: &Deck)
        ensures
            hand@ == self.hand_view(),
    {
        &self.hand
    }

    /// The player's hand, to change.
    pub fn hand_mut(&mut self) -> (hand: &mut Deck)
        ensures
            (*hand)@ == old(self).hand_view(),
            final(self).hand_view() == (*final(hand))@,
            final(self).name_view() == old(self).name_view(),
            final(self).books_view() == old(self).books_view(),
    {
        &mut self.hand
    }

    /// The player's books.
    pub fn books(&self) -> (books: &Vec<Deck>)
        ensures
            books@.map_values(|b: Deck| b@) == self.books_view(),
    {
        &self.books
    }

    /// Adds the book `book` to the player's books.
    pub fn add_book(&mut self, book: Deck)
        ensures
            final(self).books_view() == old(self).books_view().push(book@),
            final(self).name_view() == old(self).name_view(),
            final(self).hand_view() == old(self).hand_view(),
    {
        self.books.push(book);
        assert(self.books_view() =~= old(self).books_view().push(book@));
    }
}

} // verus!
