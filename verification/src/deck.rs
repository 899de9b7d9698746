//! Decks of playing cards, and how they are printed.

use vstd::prelude::*;

use rand::seq::SliceRandom;
use vstd::multiset::Multiset;

pub use crate::card::{Card, CardSet, PrintCard, Rank, Suit};
use crate::text::{keep_n_columns, spec_keep_n_columns, spec_side_by_side, string_side_by_side, string_views};

verus! {

/// Shuffles `cards` with `rand::seq::SliceRandom::shuffle` and `rand::thread_rng()`.
///
/// The shuffle only swaps cards, so the same cards stay in the vector; which order comes out
/// depends on chance and is not stated.
#[verifier::external_body]
fn shuffle_cards(cards: &mut Vec<Card>)
    ensures
        final(cards)@.len() == old(cards)@.len(),
        final(cards)@.to_multiset() == old(cards)@.to_multiset(),
{
    cards.shuffle(&mut rand::thread_rng());
}

/// The cards of `s` for which `flags` holds `want`, in order.
pub open spec fn select(s: Seq<Card>, flags: Seq<bool>, want: bool) -> Seq<Card>
    decreases s.len(),
{
    if s.len() == 0 {
        seq![]
    } else if flags.last() == want {
        select(s.drop_last(), flags.drop_last(), want).push(s.last())
    } else {
        select(s.drop_last(), flags.drop_last(), want)
    }
}

/// What a predicate answered for each card of `s`, if the answers are `flags`.
pub open spec fn answers<P: Fn(&Card) -> bool>(predicate: P, s: Seq<Card>, flags: Seq<bool>) -> bool {
    &&& flags.len() == s.len()
    &&& forall|i: int| 0 <= i < s.len() ==> #[trigger] predicate.ensures((&s[i],), flags[i])
}

/// Where the answers are those of `f`, the selected cards are the filter by `f`.
pub proof fn lemma_select_filter(s: Seq<Card>, flags: Seq<bool>, f: spec_fn(Card) -> bool)
    requires
        flags.len() == s.len(),
        forall|i: int| 0 <= i < s.len() ==> #[trigger] flags[i] == f(s[i]),
    ensures
        select(s, flags, true) == s.filter(f),
        select(s, flags, false) == s.filter(|c: Card| !f(c)),
    decreases s.len(),
{
    reveal_with_fuel(Seq::<_>::filter, 1);
    if s.len() > 0 {
        lemma_select_filter(s.drop_last(), flags.drop_last(), f);
        assert(flags.last() == f(s.last()));
    }
}

/// The selected and unselected cards together are the cards of `s`.
pub proof fn lemma_select_multiset(s: Seq<Card>, flags: Seq<bool>)
    requires
        flags.len() == s.len(),
    ensures
        select(s, flags, true).to_multiset().add(select(s, flags, false).to_multiset())
            == s.to_multiset(),
        select(s, flags, true).len() + select(s, flags, false).len() == s.len(),
    decreases s.len(),
{
    broadcast use vstd::seq_lib::group_to_multiset_ensures;

    if s.len() > 0 {
        lemma_select_multiset(s.drop_last(), flags.drop_last());
        assert(s =~= s.drop_last().push(s.last()));
    } else {
        assert(s.to_multiset() =~= Multiset::empty());
    }
}

/// The standard 52 card deck, suit by suit (Clubs, Spades, Hearts, Diamonds), each suit
/// from Two to Ace; the last card is the top.
pub open spec fn standard_deck() -> Seq<Card> {
    Seq::new(52, |i: int| Card { rank: Rank::at_pos(i % 13), suit: Suit::at_pos(i / 13) })
}

/// The cards of `s` with the rank at place `r`.
pub open spec fn rank_run(s: Seq<Card>, r: int) -> Seq<Card> {
    s.filter(|c: Card| c.rank.pos() == r)
}

/// The cards of `s` with rank places below `r`, rank by rank, keeping the order within a rank.
pub open spec fn sort_upto(s: Seq<Card>, r: int) -> Seq<Card>
    decreases r,
{
    if r <= 0 {
        seq![]
    } else {
        sort_upto(s, r - 1) + rank_run(s, r - 1)
    }
}

/// The cards of `s` sorted by rank, cards of the same rank in their order in `s`.
pub open spec fn sorted_by_rank(s: Seq<Card>) -> Seq<Card> {
    sort_upto(s, 13)
}

/// The text of card `c` in `card_set`: its face texture, or the back texture.
pub open spec fn card_text(card_set: CardSet, c: Card, show_face: bool) -> Seq<char> {
    if show_face {
        card_set.face(c.rank, c.suit)
    } else {
        card_set.back_view()
    }
}

/// The text of a deck of cards `cards`: the last `show_last` (all for `None`) cards laid side by
/// side, each card but the top cut to its first `peek + 1` columns.
pub open spec fn spec_render_deck(
    cards: Seq<Card>,
    card_set: CardSet,
    peek: int,
    show_last: Option<usize>,
    show_faces: bool,
) -> Seq<char> {
    let len = cards.len() as int;
    let n = match show_last {
        Some(n) => n as int,
        None => len,
    };
    if len == 0 || n == 0 {
        seq![]
    } else {
        let skip = if len > n {
            len - n
        } else {
            0
        };
        let shown = cards.subrange(skip, len);
        let behind = shown.drop_last().map_values(
            |c: Card| spec_keep_n_columns(card_text(card_set, c, show_faces), peek),
        );
        spec_side_by_side(behind.push(card_text(card_set, shown.last(), show_faces)), seq![])
    }
}

/// A representation of a deck of playing cards. The last card is the top of the deck.
pub struct Deck(Vec<Card>);

impl View for Deck {
    type V = Seq<Card>;

    closed spec fn view(&self) -> Seq<Card> {
        self.0@
    }
}

impl Deck {
    /// Creates a deck with no cards.
    pub fn empty() -> (deck: Deck)
        ensures
            deck@ == Seq::<Card>::empty(),
    {
        Deck(Vec::new())
    }

    /// Creates a standard, unshuffled deck of 52 cards.
    fn unshuffled_52_card() -> (deck: Deck)
        ensures
            deck@ == standard_deck(),
    {
        let mut deck: Vec<Card> = Vec::new();
        let suits = Suit::suits();
        let ranks = Rank::ranks();
        let mut s: usize = 0;
        while s < suits.len()
            invariant
                s <= 4,
                suits@ == Suit::all(),
                ranks@ == Rank::all(),
                deck@.len() == 13 * s,
                forall|i: int| 0 <= i < deck@.len() ==> #[trigger] deck@[i] == standard_deck()[i],
            decreases 4 - s,
        {
            let mut r: usize = 0;
            while r < ranks.len()
                invariant
                    s < 4,
                    r <= 13,
                    suits@ == Suit::all(),
                    ranks@ == Rank::all(),
                    deck@.len() == 13 * s + r,
                    forall|i: int|
                        0 <= i < deck@.len() ==> #[trigger] deck@[i] == standard_deck()[i],
                decreases 13 - r,
            {
                proof {
                    let i = 13 * s + r;
                    assert(i % 13 == r as int) by (nonlinear_arith)
                        requires
                            i == 13 * s + r,
                            0 <= r < 13,
                    ;
                    assert(i / 13 == s as int) by (nonlinear_arith)
                        requires
                            i == 13 * s + r,
                            0 <= r < 13,
                    ;
                }
                deck.push(Card::new(ranks[r], suits[s]));
                r += 1;
            }
            s += 1;
        }
        assert(deck@ =~= standard_deck());
        Deck(deck)
    }

    /// Shuffles the cards in the deck randomly.
    ///
    /// Note - does not imitate the behavior of real-world shuffles.
    pub fn shuffle(&mut self)
        ensures
            final(self)@.len() == old(self)@.len(),
            final(self)@.to_multiset() == old(self)@.to_multiset(),
    {
        shuffle_cards(&mut self.0);
    }

    /// Sorts the cards of the deck by rank (a stable sort: cards of one rank keep their order).
    ///
    /// Useful for sorting a player's hand to make it easier to read.
    pub fn sort(&mut self)
        ensures
            final(self)@ == sorted_by_rank(old(self)@),
    {
        let cards = &self.0;
        let mut sorted: Vec<Card> = Vec::new();
        let mut r: usize = 0;
        while r < 13
            invariant
                r <= 13,
                sorted@ == sort_upto(cards@, r as int),
            decreases 13 - r,
        {
            let mut i: usize = 0;
            let ghost before = sorted@;
            let ghost pred = |c: Card| c.rank.pos() == r;
            while i < cards.len()
                invariant
                    i <= cards.len(),
                    r < 13,
                    pred == (|c: Card| c.rank.pos() == r),
                    sorted@ == before + cards@.take(i as int).filter(pred),
                decreases cards.len() - i,
            {
                proof {
                    assert(cards@.take(i + 1) =~= cards@.take(i as int).push(cards@[i as int]));
                    cards@.take(i as int).lemma_filter_push(cards@[i as int], pred);
                }
                if cards[i].rank.index() == r {
                    sorted.push(cards[i]);
                }
                i += 1;
            }
            assert(cards@.take(cards.len() as int) =~= cards@);
            r += 1;
        }
        self.0 = sorted;
    }

    /// Creates a standard shuffled 52 card deck.
    pub fn shuffled_52_card() -> (deck: Deck)
        ensures
            deck@.len() == 52,
            deck@.to_multiset() == standard_deck().to_multiset(),
    {
        let mut deck = Self::unshuffled_52_card();
        deck.shuffle();
        deck
    }

    /// Adds a card `card` to the top of the deck.
    pub fn stack(&mut self, card: Card)
        ensures
            final(self)@ == old(self)@.push(card),
    {
        self.0.push(card);
    }

    /// Stacks all cards from `other_deck` onto the deck, keeping their order.
    pub fn stack_deck(&mut self, other_deck: Deck)
        ensures
            final(self)@ == old(self)@ + other_deck@,
    {
        let other = other_deck.0;
        let ghost start = self.0@;
        let mut i: usize = 0;
        while i < other.len()
            invariant
                i <= other.len(),
                self.0@ == start + other@.take(i as int),
            decreases other.len() - i,
        {
            self.0.push(other[i]);
            i += 1;
            assert(self.0@ =~= start + other@.take(i as int));
        }
        assert(other@.take(other.len() as int) =~= other@);
    }

    /// Adds a card `card` to the bottom of the deck.
    pub fn stack_under(&mut self, card: Card)
        ensures
            final(self)@ == seq![card] + old(self)@,
    {
        self.0.insert(0, card);
        assert(self.0@ =~= seq![card] + old(self)@);
    }

    /// Stacks all cards from `other_deck` to the bottom of the deck.
    ///
    /// The equivalent of taking a deck of cards (`other_deck`) and cutting it underneath the deck.
    /// This preserves the order of both decks and does not reverse `other_deck`.
    pub fn stack_deck_under(&mut self, other_deck: Deck)
        ensures
            final(self)@ == other_deck@ + old(self)@,
    {
        let mut cards = other_deck.0;
        let mut i: usize = 0;
        let ghost start = cards@;
        while i < self.0.len()
            invariant
                i <= self.0.len(),
                cards@ == start + self.0@.take(i as int),
            decreases self.0.len() - i,
        {
            cards.push(self.0[i]);
            i += 1;
            assert(cards@ =~= start + self.0@.take(i as int));
        }
        assert(self.0@.take(self.0.len() as int) =~= self.0@);
        self.0 = cards;
    }

    /// Draws and returns the top card from the deck (`None` where the deck is empty).
    pub fn draw(&mut self) -> (card: Option<Card>)
        ensures
            old(self)@.len() == 0 ==> card is None && final(self)@ == old(self)@,
            old(self)@.len() > 0 ==> card == Some(old(self)@.last()) && final(self)@ == old(self)@.drop_last(),
    {
        self.0.pop()
    }

    /// Returns the length of the deck.
    pub fn len(&self) -> (n: usize)
        ensures
            n == self@.len(),
    {
        self.0.len()
    }

    /// Checks if the deck is empty.
    pub fn is_empty(&self) -> (empty: bool)
        ensures
            empty == (self@.len() == 0),
    {
        self.len() == 0
    }

    /// Returns the card at index `index` (0 is the bottom card).
    pub fn card_at_index(&self, index: usize) -> (card: Card)
        requires
            index < self@.len(),
        ensures
            card == self@[index as int],
    {
        self.0[index]
    }

    /// Removes and returns all cards that match `predicate`, in their order; the cards that
    /// do not match stay, in their order.
    pub fn remove<P>(&mut self, predicate: P) -> (removed: Deck) where P: Fn(&Card) -> bool
        requires
            forall|c: &Card| #[trigger] predicate.requires((c,)),
        ensures
            exists|flags: Seq<bool>|
                #[trigger] answers(predicate, old(self)@, flags) && removed@ == select(
                    old(self)@,
                    flags,
                    true,
                ) && final(self)@ == select(old(self)@, flags, false),
    {
        let cards = &self.0;
        let mut removed: Vec<Card> = Vec::new();
        let mut kept: Vec<Card> = Vec::new();
        let ghost mut flags: Seq<bool> = Seq::empty();
        let mut i: usize = 0;
        while i < cards.len()
            invariant
                i <= cards.len(),
                forall|c: &Card| #[trigger] predicate.requires((c,)),
                answers(predicate, cards@.take(i as int), flags),
                removed@ == select(cards@.take(i as int), flags, true),
                kept@ == select(cards@.take(i as int), flags, false),
            decreases cards.len() - i,
        {
            let card = cards[i];
            let matched = predicate(&card);
            proof {
                let t = cards@.take(i + 1);
                assert(t.drop_last() =~= cards@.take(i as int));
                assert(flags.push(matched).drop_last() =~= flags);
                assert forall|j: int| 0 <= j < t.len() implies #[trigger] predicate.ensures(
                    (&t[j],),
                    flags.push(matched)[j],
                ) by {
                    if j < i {
                        assert(t[j] == cards@.take(i as int)[j]);
                    }
                }
                flags = flags.push(matched);
            }
            if matched {
                removed.push(card);
            } else {
                kept.push(card);
            }
            i += 1;
        }
        assert(cards@.take(cards.len() as int) =~= cards@);
        assert(answers(predicate, old(self)@, flags));
        self.0 = kept;
        Deck(removed)
    }

    /// Returns copies of all of the cards that match `predicate`, in their order.
    pub fn cards<P>(&self, predicate: P) -> (matching: Deck) where P: Fn(&Card) -> bool
        requires
            forall|c: &Card| #[trigger] predicate.requires((c,)),
        ensures
            exists|flags: Seq<bool>|
                #[trigger] answers(predicate, self@, flags) && matching@ == select(
                    self@,
                    flags,
                    true,
                ),
    {
        let cards = &self.0;
        let mut matching: Vec<Card> = Vec::new();
        let ghost mut flags: Seq<bool> = Seq::empty();
        let mut i: usize = 0;
        while i < cards.len()
            invariant
                i <= cards.len(),
                forall|c: &Card| #[trigger] predicate.requires((c,)),
                answers(predicate, cards@.take(i as int), flags),
                matching@ == select(cards@.take(i as int), flags, true),
            decreases cards.len() - i,
        {
            let card = cards[i];
            let matched = predicate(&card);
            proof {
                let t = cards@.take(i + 1);
                assert(t.drop_last() =~= cards@.take(i as int));
                assert(flags.push(matched).drop_last() =~= flags);
                assert forall|j: int| 0 <= j < t.len() implies #[trigger] predicate.ensures(
                    (&t[j],),
                    flags.push(matched)[j],
                ) by {
                    if j < i {
                        assert(t[j] == cards@.take(i as int)[j]);
                    }
                }
                flags = flags.push(matched);
            }
            if matched {
                matching.push(card);
            }
            i += 1;
        }
        assert(cards@.take(cards.len() as int) =~= cards@);
        assert(answers(predicate, self@, flags));
        Deck(matching)
    }

    /// Returns a `PrintDeck` from the deck.
    pub fn as_printable(&self) -> (p: PrintDeck<'_>)
        ensures
            p.deck()@ == self@,
            p.peek_amount() == 0,
            p.show_last() is None,
            p.faces_shown(),
    {
        PrintDeck::from(self)
    }

    /// Creates a deck of the cards `cards` (the last is the top).
    pub fn from_cards(cards: Vec<Card>) -> (deck: Deck)
        ensures
            deck@ == cards@,
    {
        Deck(cards)
    }

    /// Creates a deck of copies of the cards `cards` (the last is the top).
    pub fn from_slice(cards: &[Card]) -> (deck: Deck)
        ensures
            deck@ == cards@,
    {
        let mut v: Vec<Card> = Vec::new();
        let mut i: usize = 0;
        while i < cards.len()
            invariant
                i <= cards.len(),
                v@ == cards@.take(i as int),
            decreases cards.len() - i,
        {
            v.push(cards[i]);
            i += 1;
            assert(v@ =~= cards@.take(i as int));
        }
        assert(cards@.take(cards.len() as int) =~= cards@);
        Deck(v)
    }

    /// Creates one deck of the decks `decks`, the first deck at the bottom.
    pub fn from_decks(decks: &[Deck]) -> (deck: Deck)
        ensures
            deck@ == decks@.map_values(|d: Deck| d@).flatten(),
    {
        let ghost views = decks@.map_values(|d: Deck| d@);
        let mut all: Vec<Card> = Vec::new();
        let mut k: usize = 0;
        while k < decks.len()
            invariant
                k <= decks.len(),
                views == decks@.map_values(|d: Deck| d@),
                all@ == views.take(k as int).flatten(),
            decreases decks.len() - k,
        {
            let d = &decks[k];
            let ghost before = all@;
            let mut j: usize = 0;
            while j < d.len()
                invariant
                    j <= d@.len(),
                    all@ == before + d@.take(j as int),
                decreases d@.len() - j,
            {
                all.push(d.card_at_index(j));
                j += 1;
                assert(all@ =~= before + d@.take(j as int));
            }
            proof {
                assert(d@.take(j as int) =~= d@);
                assert(views[k as int] == d@);
                assert(views.take(k + 1) =~= views.take(k as int).push(d@));
                views.take(k as int).lemma_flatten_push(d@);
            }
            k += 1;
        }
        assert(views.take(decks.len() as int) =~= views);
        Deck(all)
    }
}

/// Iterates over the cards of a deck, from the bottom card to the top.
pub struct DeckIter<'a> {
    index: usize,
    deck: &'a Deck,
}

impl<'a> DeckIter<'a> {
    /// The cards the iterator has not given yet.
    pub closed spec fn remaining(self) -> Seq<Card> {
        self.deck@.subrange(self.index as int, self.deck@.len() as int)
    }

    #[verifier::type_invariant]
    spec fn within_deck(self) -> bool {
        self.index <= self.deck@.len()
    }

    /// Creates an iterator over all cards of `deck`.
    pub fn new(deck: &'a Deck) -> (it: DeckIter<'a>)
        ensures
            it.remaining() == deck@,
    {
        let it = DeckIter { index: 0, deck };
        assert(it.remaining() =~= deck@);
        it
    }

    /// Returns the next card, or `None` where all cards were given.
    pub fn next(&mut self) -> (card: Option<Card>)
        ensures
            old(self).remaining().len() == 0 ==> card is None && final(self).remaining()
                == old(self).remaining(),
            old(self).remaining().len() > 0 ==> card == Some(old(self).remaining()[0]) && final(self).remaining() == old(self).remaining().drop_first(),
    {
        proof {
            use_type_invariant(&*self);
        }
        if self.index >= self.deck.len() {
            return None;
        }
        let next = self.deck.card_at_index(self.index);
        self.index = self.index + 1;
        proof {
            assert(self.remaining() =~= old(self).remaining().drop_first());
        }
        Some(next)
    }
}

/// Used to print a `Deck` with several options.
pub struct PrintDeck<'a> {
    /// `from_deck` - the `Deck` to print.
    from_deck: &'a Deck,
    /// `peek_n_amount_of_card` - the amount characters of each card face to show
    ///     0 shows only the edge, 1 shows one character of the face of the card past the edge...
    pub peek_n_amount_of_card: usize,
    /// `show_last_n_cards` - the amount of cards to show from the top of the deck down.
    ///     None prints all cards, Some(0) shows zero cards, Some(1) shows only the top card...
    pub show_last_n_cards: Option<usize>,
    /// `show_faces` - whether or not to show the faces of the cards.
    pub show_faces: bool,
}

impl<'a> PrintDeck<'a> {
    /// The deck that is printed.
    pub closed spec fn deck(self) -> Deck {
        *self.from_deck
    }

    /// How many columns of each card behind the top are shown, besides the edge.
    pub closed spec fn peek_amount(self) -> usize {
        self.peek_n_amount_of_card
    }

    /// How many cards from the top are shown (all for `None`).
    pub closed spec fn show_last(self) -> Option<usize> {
        self.show_last_n_cards
    }

    /// Whether the faces of the cards are shown.
    pub closed spec fn faces_shown(self) -> bool {
        self.show_faces
    }

    /// Creates a `PrintDeck` of `deck` that shows every card face, one column of each card
    /// behind the top.
    pub fn from(deck: &'a Deck) -> (p: PrintDeck<'a>)
        ensures
            p.deck()@ == deck@,
            p.peek_amount() == 0,
            p.show_last() is None,
            p.faces_shown(),
    {
        PrintDeck {
            from_deck: deck,
            peek_n_amount_of_card: 0,
            show_last_n_cards: None,
            show_faces: true,
        }
    }

    /// Changes `peek_n_amount_of_card` to whatever specified.
    pub fn peek(self, peek_n_amount_of_card: usize) -> (p: PrintDeck<'a>)
        ensures
            p.deck()@ == self.deck()@,
            p.peek_amount() == peek_n_amount_of_card,
            p.show_last() == self.show_last(),
            p.faces_shown() == self.faces_shown(),
    {
        PrintDeck { peek_n_amount_of_card, ..self }
    }

    /// Changes `show_last_n_cards` to whatever specified.
    pub fn only_show(self, show_last_n_cards: usize) -> (p: PrintDeck<'a>)
        ensures
            p.deck()@ == self.deck()@,
            p.peek_amount() == self.peek_amount(),
            p.show_last() == Some(show_last_n_cards),
            p.faces_shown() == self.faces_shown(),
    {
        PrintDeck { show_last_n_cards: Some(show_last_n_cards), ..self }
    }

    /// Hides the faces of the cards.
    pub fn hide_faces(self) -> (p: PrintDeck<'a>)
        ensures
            p.deck()@ == self.deck()@,
            p.peek_amount() == self.peek_amount(),
            p.show_last() == self.show_last(),
            !p.faces_shown(),
    {
        PrintDeck { show_faces: false, ..self }
    }

    /// The text of the deck in the card set `card_set`.
    pub fn render(&self, card_set: &CardSet) -> (text: String)
        ensures
            text@ == spec_render_deck(
                self.deck()@,
                *card_set,
                self.peek_amount() as int,
                self.show_last(),
                self.faces_shown(),
            ),
    {
        let deck = self.from_deck;
        let length_of_deck = deck.len();
        let show_last_n_cards = match self.show_last_n_cards {
            Some(n) => n,
            None => length_of_deck,
        };
        if length_of_deck == 0 || show_last_n_cards == 0 {
            return String::new();
        }
        let skip = if length_of_deck > show_last_n_cards {
            length_of_deck - show_last_n_cards
        } else {
            0
        };
        let ghost shown = deck@.subrange(skip as int, length_of_deck as int);
        let ghost peek = self.peek_n_amount_of_card as int;
        let ghost faces = self.show_faces;
        let ghost behind = shown.drop_last().map_values(
            |c: Card| spec_keep_n_columns(card_text(*card_set, c, faces), peek),
        );
        let mut texts: Vec<String> = Vec::new();
        let mut i = skip;
        while i < length_of_deck - 1
            invariant
                skip <= i <= length_of_deck - 1,
                length_of_deck == deck@.len(),
                length_of_deck > 0,
                shown == deck@.subrange(skip as int, length_of_deck as int),
                peek == self.peek_amount(),
                faces == self.faces_shown(),
                behind == shown.drop_last().map_values(
                    |c: Card| spec_keep_n_columns(card_text(*card_set, c, faces), peek),
                ),
                string_views(texts@) == behind.take(i - skip),
            decreases length_of_deck - 1 - i,
        {
            let card = deck.card_at_index(i);
            let card_string = card.as_printable().show(self.show_faces).render(card_set);
            let kept = keep_n_columns(card_string.as_str(), self.peek_n_amount_of_card);
            proof {
                assert(behind[i - skip] == spec_keep_n_columns(
                    card_text(*card_set, card, faces),
                    peek,
                ));
                assert(behind.take(i - skip + 1) =~= behind.take(i - skip).push(kept@));
            }
            texts.push(kept);
            assert(string_views(texts@) =~= string_views(texts@.drop_last()).push(
                texts@.last()@,
            ));
            i += 1;
        }
        let last_card = deck.card_at_index(length_of_deck - 1);
        let last_string = last_card.as_printable().show(self.show_faces).render(card_set);
        texts.push(last_string);
        proof {
            assert(behind.take(i - skip) =~= behind);
            assert(string_views(texts@) =~= behind.push(
                card_text(*card_set, shown.last(), faces),
            ));
        }
        let nothing = "";
        proof {
            reveal_strlit("");
        }
        assert(nothing@ =~= Seq::<char>::empty());
        string_side_by_side(texts.as_slice(), nothing)
    }
}


// ---------------------------------------------------------------------------
// Counting cards
// ---------------------------------------------------------------------------
/// All the cards of the piles `piles`, each counted as often as it occurs.
pub open spec fn cards_in(piles: Seq<Seq<Card>>) -> Multiset<Card>
    decreases piles.len(),
{
    if piles.len() == 0 {
        Multiset::empty()
    } else {
        cards_in(piles.drop_last()).add(piles.last().to_multiset())
    }
}

/// Replacing one pile changes the cards counted by exactly the cards of the two piles.
pub proof fn lemma_cards_in_update(piles: Seq<Seq<Card>>, i: int, pile: Seq<Card>)
    requires
        0 <= i < piles.len(),
    ensures
        cards_in(piles.update(i, pile)).add(piles[i].to_multiset()) == cards_in(piles).add(
            pile.to_multiset(),
        ),
    decreases piles.len(),
{
    broadcast use vstd::multiset::group_multiset_axioms;

    let updated = piles.update(i, pile);
    assert(cards_in(updated) == cards_in(updated.drop_last()).add(updated.last().to_multiset()));
    assert(cards_in(piles) == cards_in(piles.drop_last()).add(piles.last().to_multiset()));
    if i < piles.len() - 1 {
        lemma_cards_in_update(piles.drop_last(), i, pile);
        assert(piles.drop_last()[i] == piles[i]);
        assert(updated.drop_last() =~= piles.drop_last().update(i, pile));
        assert(updated.last() == piles.last());
        let a = cards_in(piles.drop_last().update(i, pile));
        let b = cards_in(piles.drop_last());
        assert(a.add(piles[i].to_multiset()) == b.add(pile.to_multiset()));
        assert forall|c: Card|
            #[trigger] cards_in(updated).add(piles[i].to_multiset()).count(c) == cards_in(
                piles,
            ).add(pile.to_multiset()).count(c) by {
            assert(a.add(piles[i].to_multiset()).count(c) == b.add(pile.to_multiset()).count(c));
        }
        assert(cards_in(updated).add(piles[i].to_multiset()) =~= cards_in(piles).add(
            pile.to_multiset(),
        ));
    } else {
        assert(updated.drop_last() =~= piles.drop_last());
        assert(updated.last() == pile);
        assert(cards_in(updated).add(piles[i].to_multiset()) =~= cards_in(piles).add(
            pile.to_multiset(),
        ));
    }
}

/// Splitting a sequence of cards by two predicates that never both hold splits its cards.
pub proof fn lemma_filter_split(s: Seq<Card>, f: spec_fn(Card) -> bool, g: spec_fn(Card) -> bool)
    requires
        forall|c: Card| !(#[trigger] f(c) && g(c)),
    ensures
        s.filter(|c: Card| f(c) || g(c)).to_multiset() == s.filter(f).to_multiset().add(
            s.filter(g).to_multiset(),
        ),
    decreases s.len(),
{
    broadcast use vstd::seq_lib::group_to_multiset_ensures;
    broadcast use vstd::multiset::group_multiset_axioms;

    let h = |c: Card| f(c) || g(c);
    if s.len() == 0 {
        assert(s.filter(h) =~= s);
        assert(s.filter(f) =~= s);
        assert(s.filter(g) =~= s);
        assert(s.to_multiset() =~= Multiset::empty());
    } else {
        let t = s.drop_last();
        let e = s.last();
        assert(s =~= t.push(e));
        lemma_filter_split(t, f, g);
        t.lemma_filter_push(e, h);
        t.lemma_filter_push(e, f);
        t.lemma_filter_push(e, g);
        assert(s.filter(h).to_multiset() =~= s.filter(f).to_multiset().add(s.filter(g).to_multiset()));
    }
}

/// Filtering by a predicate that every card meets keeps every card.
pub proof fn lemma_filter_keeps_all(s: Seq<Card>, f: spec_fn(Card) -> bool)
    requires
        forall|c: Card| #[trigger] f(c),
    ensures
        s.filter(f) == s,
    decreases s.len(),
{
    if s.len() > 0 {
        lemma_filter_keeps_all(s.drop_last(), f);
        s.drop_last().lemma_filter_push(s.last(), f);
        assert(s.drop_last().push(s.last()) =~= s);
    } else {
        reveal_with_fuel(Seq::<_>::filter, 1);
        assert(s.filter(f) =~= s);
    }
}

/// Filtering by a predicate that no card meets keeps no card.
pub proof fn lemma_filter_keeps_none(s: Seq<Card>, f: spec_fn(Card) -> bool)
    requires
        forall|c: Card| !#[trigger] f(c),
    ensures
        s.filter(f) == Seq::<Card>::empty(),
    decreases s.len(),
{
    if s.len() > 0 {
        lemma_filter_keeps_none(s.drop_last(), f);
        s.drop_last().lemma_filter_push(s.last(), f);
        assert(s.drop_last().push(s.last()) =~= s);
    } else {
        reveal_with_fuel(Seq::<_>::filter, 1);
        assert(s.filter(f) =~= Seq::<Card>::empty());
    }
}

/// A predicate and its negation split the cards of a sequence.
pub proof fn lemma_filter_partition(s: Seq<Card>, f: spec_fn(Card) -> bool)
    ensures
        s.filter(f).to_multiset().add(s.filter(|c: Card| !f(c)).to_multiset()) == s.to_multiset(),
{
    let g = |c: Card| !f(c);
    lemma_filter_split(s, f, g);
    lemma_filter_keeps_all(s, |c: Card| f(c) || g(c));
}

// ---------------------------------------------------------------------------
// Laws of decks
// ---------------------------------------------------------------------------
/// Drawing right after stacking a card gives that card back and leaves the deck as it was.
pub proof fn draw_undoes_stack(deck: Seq<Card>, card: Card)
    ensures
        deck.push(card).len() > 0,
        deck.push(card).last() == card,
        deck.push(card).drop_last() == deck,
{
    assert(deck.push(card).drop_last() =~= deck);
}

/// Sorting keeps the cards of a deck (each as often as before) and puts them in rank order,
/// lowest rank at the bottom.
pub proof fn sorting_keeps_cards_in_rank_order(s: Seq<Card>)
    ensures
        sorted_by_rank(s).to_multiset() == s.to_multiset(),
        sorted_by_rank(s).len() == s.len(),
        forall|i: int, j: int|
            0 <= i <= j < s.len() ==> (#[trigger] sorted_by_rank(s)[i]).rank.pos()
                <= (#[trigger] sorted_by_rank(s)[j]).rank.pos(),
{
    broadcast use vstd::seq_lib::group_to_multiset_ensures;

    let all = |c: Card| c.rank.pos() < 13;
    lemma_sort_upto(s, 13);
    lemma_filter_keeps_all(s, all);
    assert(sorted_by_rank(s).to_multiset() == s.to_multiset());
    assert(sorted_by_rank(s).len() == sorted_by_rank(s).to_multiset().len());
    assert(s.len() == s.to_multiset().len());
}

/// The cards sorted so far are the cards of ranks below `r`, in rank order.
proof fn lemma_sort_upto(s: Seq<Card>, r: int)
    requires
        0 <= r,
    ensures
        sort_upto(s, r).to_multiset() == s.filter(|c: Card| c.rank.pos() < r).to_multiset(),
        forall|i: int| 0 <= i < sort_upto(s, r).len() ==> #[trigger] sort_upto(s, r)[i].rank.pos() < r,
        forall|i: int, j: int|
            0 <= i <= j < sort_upto(s, r).len() ==> (#[trigger] sort_upto(s, r)[i]).rank.pos()
                <= (#[trigger] sort_upto(s, r)[j]).rank.pos(),
    decreases r,
{
    broadcast use vstd::seq_lib::lemma_multiset_commutative;
    broadcast use vstd::seq_lib::group_filter_ensures;

    if r == 0 {
        lemma_filter_keeps_none(s, |c: Card| c.rank.pos() < 0);
        assert(sort_upto(s, 0) =~= Seq::<Card>::empty());
    } else {
        lemma_sort_upto(s, r - 1);
        let below = |c: Card| c.rank.pos() < r - 1;
        let at = |c: Card| c.rank.pos() == r - 1;
        lemma_filter_split(s, below, at);
        assert((|c: Card| below(c) || at(c)) =~= (|c: Card| c.rank.pos() < r));
        let prev = sort_upto(s, r - 1);
        let run = rank_run(s, r - 1);
        assert(run =~= s.filter(at));
        assert(sort_upto(s, r) == prev + run);
        assert forall|i: int| 0 <= i < run.len() implies #[trigger] run[i].rank.pos() == r - 1 by {
            s.lemma_filter_pred(at, i);
        }
        assert forall|i: int, j: int|
            0 <= i <= j < sort_upto(s, r).len() implies (#[trigger] sort_upto(s, r)[i]).rank.pos()
            <= (#[trigger] sort_upto(s, r)[j]).rank.pos() by {
            if j >= prev.len() {
                assert(sort_upto(s, r)[j] == run[j - prev.len()]);
                if i >= prev.len() {
                    assert(sort_upto(s, r)[i] == run[i - prev.len()]);
                } else {
                    assert(sort_upto(s, r)[i] == prev[i]);
                }
            } else {
                assert(sort_upto(s, r)[i] == prev[i]);
                assert(sort_upto(s, r)[j] == prev[j]);
            }
        }
        assert forall|i: int| 0 <= i < sort_upto(s, r).len() implies #[trigger] sort_upto(
            s,
            r,
        )[i].rank.pos() < r by {
            if i >= prev.len() {
                assert(sort_upto(s, r)[i] == run[i - prev.len()]);
            } else {
                assert(sort_upto(s, r)[i] == prev[i]);
            }
        }
    }
}

/// Whether the cards of `s` are in rank order, lowest rank at the bottom.
pub open spec fn in_rank_order(s: Seq<Card>) -> bool {
    forall|i: int, j: int| 0 <= i <= j < s.len() ==> (#[trigger] s[i]).rank.pos() <= (#[trigger] s[j]).rank.pos()
}

/// Taking some of the cards of a deck in rank order leaves them in rank order.
pub proof fn lemma_filter_keeps_rank_order(s: Seq<Card>, f: spec_fn(Card) -> bool)
    requires
        in_rank_order(s),
    ensures
        in_rank_order(s.filter(f)),
    decreases s.len(),
{
    if s.len() == 0 {
        reveal_with_fuel(Seq::<_>::filter, 1);
        assert(s.filter(f) =~= s);
    } else {
        let d = s.drop_last();
        let e = s.last();
        assert(s =~= d.push(e));
        assert forall|i: int, j: int| 0 <= i <= j < d.len() implies (#[trigger] d[i]).rank.pos() <= (
        #[trigger] d[j]).rank.pos() by {
            assert(d[i] == s[i] && d[j] == s[j]);
        }
        lemma_filter_keeps_rank_order(d, f);
        d.lemma_filter_push(e, f);
        if f(e) {
            let fd = d.filter(f);
            let r = fd.push(e);
            assert forall|i: int, j: int| 0 <= i <= j < r.len() implies (#[trigger] r[i]).rank.pos() <= (
            #[trigger] r[j]).rank.pos() by {
                if j == r.len() - 1 && i < j {
                    assert(r[i] == fd[i]);
                    assert(fd.contains(fd[i]));
                    d.lemma_filter_contains_rev(f, fd[i]);
                    let k = choose|k: int| 0 <= k < d.len() && d[k] == fd[i];
                    assert(s[k] == d[k]);
                    assert(s[s.len() - 1] == e);
                } else if j < r.len() - 1 {
                    assert(r[i] == fd[i] && r[j] == fd[j]);
                }
            }
        }
    }
}

/// The standard deck holds every card exactly once.
pub proof fn standard_deck_holds_each_card_once()
    ensures
        forall|c: Card| #[trigger] standard_deck().to_multiset().count(c) == 1,
        standard_deck().len() == 52,
{
    broadcast use vstd::seq_lib::group_to_multiset_ensures;

    let d = standard_deck();
    assert forall|i: int, j: int| 0 <= i < 52 && 0 <= j < 52 && i != j implies d[i] != d[j] by {
        lemma_card_place(i);
        lemma_card_place(j);
    }
    assert(d.no_duplicates());
    d.lemma_multiset_has_no_duplicates();
    assert forall|c: Card| #[trigger] d.to_multiset().count(c) == 1 by {
        let i: int = (13 * c.suit.pos() + c.rank.pos()) as int;
        assert(i % 13 == c.rank.pos() as int && i / 13 == c.suit.pos() as int) by (nonlinear_arith)
            requires
                i == 13 * c.suit.pos() + c.rank.pos(),
                c.rank.pos() < 13,
        ;
        assert(Rank::at_pos(c.rank.pos() as int) == c.rank);
        assert(Suit::at_pos(c.suit.pos() as int) == c.suit);
        assert(d[i] == c);
        assert(d.contains(c));
    }
}

/// The card at place `i` of the standard deck has the rank at `i % 13` and the suit at
/// `i / 13`, and those places are in range.
proof fn lemma_card_place(i: int)
    requires
        0 <= i < 52,
    ensures
        standard_deck()[i].rank.pos() == i % 13,
        standard_deck()[i].suit.pos() == i / 13,
{
    assert(0 <= i % 13 < 13 && 0 <= i / 13 < 4) by (nonlinear_arith)
        requires
            0 <= i < 52,
    ;
}

/// A shuffled 52 card deck holds every card exactly once, as the standard deck does.
pub proof fn shuffled_deck_holds_each_card_once(deck: Seq<Card>)
    requires
        deck.to_multiset() == standard_deck().to_multiset(),
    ensures
        forall|c: Card| #[trigger] deck.to_multiset().count(c) == 1,
        deck.no_duplicates(),
{
    standard_deck_holds_each_card_once();
    deck.lemma_multiset_has_no_duplicates_conv();
}

/// Asking to show more cards than a deck has shows all of them, as showing all does.
pub proof fn showing_saturates(
    cards: Seq<Card>,
    card_set: CardSet,
    peek: int,
    n: usize,
    show_faces: bool,
)
    requires
        n >= cards.len(),
    ensures
        spec_render_deck(cards, card_set, peek, Some(n), show_faces) == spec_render_deck(
            cards,
            card_set,
            peek,
            None,
            show_faces,
        ),
{
}

/// Showing the top `n` cards of a deck shows what showing all of a deck made of just its top
/// `n` cards (all of them where it holds fewer) shows.
pub proof fn only_show_shows_the_top_cards(
    cards: Seq<Card>,
    card_set: CardSet,
    peek: int,
    n: usize,
    show_faces: bool,
)
    ensures
        ({
            let len = cards.len() as int;
            let m = if n < len {
                n as int
            } else {
                len
            };
            spec_render_deck(cards, card_set, peek, Some(n), show_faces) == spec_render_deck(
                cards.subrange(len - m, len),
                card_set,
                peek,
                None,
                show_faces,
            )
        }),
{
    let len = cards.len() as int;
    let m = if n < len {
        n as int
    } else {
        len
    };
    let top = cards.subrange(len - m, len);
    assert(top.subrange(0, m) =~= top);
}

/// Taking the cards that match a predicate out of a deck splits its cards: the cards taken
/// and the cards left are together the cards of the deck.
pub proof fn removing_splits_cards(s: Seq<Card>, flags: Seq<bool>)
    requires
        flags.len() == s.len(),
    ensures
        select(s, flags, true).to_multiset().add(select(s, flags, false).to_multiset())
            == s.to_multiset(),
{
    lemma_select_multiset(s, flags);
}

} // verus!
