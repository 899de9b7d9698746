//! The players of Go Fish, and how they make books.

pub mod human_player;
pub mod random_bot;

use vstd::prelude::*;

use crate::card::{Card, CardSet, Rank};
use crate::deck::{
    answers,
    in_rank_order,
    lemma_filter_keeps_rank_order,
    lemma_filter_partition,
    lemma_select_filter,
    rank_run,
    select,
    spec_render_deck,
    Deck,
    PrintDeck,
};
use crate::text::{push_str, spec_side_by_side, string_side_by_side, string_views};
use human_player::HumanPlayer;
use random_bot::RandomBot;

verus! {

/// The hand and books after making books of the ranks at places below `r`: each rank with
/// exactly 4 cards in the hand is moved, as one book in hand order, to the books.
pub open spec fn book_upto(hand: Seq<Card>, books: Seq<Seq<Card>>, r: int) -> (
    Seq<Card>,
    Seq<Seq<Card>>,
)
    decreases r,
{
    if r <= 0 {
        (hand, books)
    } else {
        let prev = book_upto(hand, books, r - 1);
        let run = rank_run(prev.0, r - 1);
        if run.len() == 4 {
            (prev.0.filter(|c: Card| !(c.rank.pos() == r - 1)), prev.1.push(run))
        } else {
            prev
        }
    }
}

/// The hand and books after making every book the hand holds, rank by rank from Two to Ace.
pub open spec fn spec_book(hand: Seq<Card>, books: Seq<Seq<Card>>) -> (Seq<Card>, Seq<Seq<Card>>) {
    book_upto(hand, books, 13)
}

/// Making books keeps the player's cards: the hand and the books then hold the cards the hand
/// and the books held.
pub proof fn booking_keeps_cards(hand: Seq<Card>, books: Seq<Seq<Card>>, r: int)
    ensures
        book_upto(hand, books, r).0.to_multiset().add(book_upto(hand, books, r).1.flatten().to_multiset())
            == hand.to_multiset().add(books.flatten().to_multiset()),
    decreases r,
{
    broadcast use vstd::seq_lib::lemma_multiset_commutative;
    broadcast use vstd::multiset::group_multiset_axioms;

    if r > 0 {
        booking_keeps_cards(hand, books, r - 1);
        let prev = book_upto(hand, books, r - 1);
        let at = |c: Card| c.rank.pos() == r - 1;
        let run = rank_run(prev.0, r - 1);
        if run.len() == 4 {
            lemma_filter_partition(prev.0, at);
            assert(run =~= prev.0.filter(at));
            assert((|c: Card| !(c.rank.pos() == r - 1)) =~= (|c: Card| !at(c)));
            assert(prev.0.filter(|c: Card| !(c.rank.pos() == r - 1)) == prev.0.filter(
                |c: Card| !at(c),
            ));
            prev.1.lemma_flatten_push(run);
            let next = book_upto(hand, books, r);
            assert(next.1.flatten() == prev.1.flatten() + run);
            assert(next.0.to_multiset().add(next.1.flatten().to_multiset()) =~= hand.to_multiset().add(
                books.flatten().to_multiset(),
            ));
        }
    }
}

/// Making books keeps a hand in rank order.
pub proof fn lemma_book_upto_keeps_order(hand: Seq<Card>, books: Seq<Seq<Card>>, r: int)
    requires
        in_rank_order(hand),
    ensures
        in_rank_order(book_upto(hand, books, r).0),
    decreases r,
{
    if r > 0 {
        lemma_book_upto_keeps_order(hand, books, r - 1);
        let prev = book_upto(hand, books, r - 1);
        if rank_run(prev.0, r - 1).len() == 4 {
            lemma_filter_keeps_rank_order(prev.0, |c: Card| !(c.rank.pos() == r - 1));
        }
    }
}

/// Filtering twice keeps the cards that meet both predicates.
proof fn lemma_filter_twice(s: Seq<Card>, f: spec_fn(Card) -> bool, g: spec_fn(Card) -> bool)
    ensures
        s.filter(f).filter(g) == s.filter(|c: Card| f(c) && g(c)),
    decreases s.len(),
{
    let h = |c: Card| f(c) && g(c);
    if s.len() == 0 {
        reveal_with_fuel(Seq::<_>::filter, 1);
        assert(s.filter(f) =~= s);
        assert(s.filter(f).filter(g) =~= s);
        assert(s.filter(h) =~= s);
    } else {
        let t = s.drop_last();
        let e = s.last();
        assert(s =~= t.push(e));
        lemma_filter_twice(t, f, g);
        t.lemma_filter_push(e, f);
        t.lemma_filter_push(e, h);
        t.filter(f).lemma_filter_push(e, g);
    }
}

/// Making the books of ranks below `r` leaves the cards of other ranks where they were, and
/// leaves no rank below `r` with exactly four cards in the hand.
proof fn lemma_book_upto_runs(hand: Seq<Card>, books: Seq<Seq<Card>>, r: int)
    requires
        0 <= r <= 13,
    ensures
        forall|q: int| r <= q < 13 ==> #[trigger] rank_run(book_upto(hand, books, r).0, q) == rank_run(hand, q),
        forall|q: int| 0 <= q < r ==> #[trigger] rank_run(book_upto(hand, books, r).0, q).len() != 4,
    decreases r,
{
    if r > 0 {
        lemma_book_upto_runs(hand, books, r - 1);
        let prev = book_upto(hand, books, r - 1);
        let run = rank_run(prev.0, r - 1);
        if run.len() == 4 {
            let keep = |c: Card| !(c.rank.pos() == r - 1);
            let next = prev.0.filter(keep);
            assert forall|q: int| 0 <= q < 13 && q != r - 1 implies #[trigger] rank_run(next, q)
                == rank_run(prev.0, q) by {
                let at = |c: Card| c.rank.pos() == q;
                lemma_filter_twice(prev.0, keep, at);
                assert((|c: Card| keep(c) && at(c)) =~= at);
                assert(rank_run(next, q) =~= next.filter(at));
                assert(rank_run(prev.0, q) =~= prev.0.filter(at));
            }
            let at = |c: Card| c.rank.pos() == r - 1;
            lemma_filter_twice(prev.0, keep, at);
            assert(rank_run(next, r - 1) =~= next.filter(at));
            assert(prev.0.filter(|c: Card| keep(c) && at(c)).len() == 0) by {
                crate::deck::lemma_filter_keeps_none(prev.0, |c: Card| keep(c) && at(c));
            }
        }
    }
}

/// Every book made holds four cards of one rank, the books held before stay as they were, and
/// no rank is left with exactly four cards in the hand.
pub proof fn books_are_four_of_a_kind(hand: Seq<Card>, books: Seq<Seq<Card>>)
    ensures
        spec_book(hand, books).1.len() >= books.len(),
        spec_book(hand, books).1.take(books.len() as int) == books,
        forall|k: int|
            books.len() <= k < spec_book(hand, books).1.len() ==> (#[trigger] spec_book(hand, books).1[k]).len()
                == 4,
        forall|k: int, i: int, j: int|
            books.len() <= k < spec_book(hand, books).1.len() && 0 <= i < 4 && 0 <= j < 4 ==> (
            #[trigger] spec_book(hand, books).1[k][i]).rank == (#[trigger] spec_book(
                hand,
                books,
            ).1[k][j]).rank,
        forall|q: int| 0 <= q < 13 ==> #[trigger] rank_run(spec_book(hand, books).0, q).len() != 4,
{
    lemma_book_upto_books(hand, books, 13);
    lemma_book_upto_runs(hand, books, 13);
}

/// The books made for ranks below `r` each hold four cards of one rank, after the books held
/// before.
proof fn lemma_book_upto_books(hand: Seq<Card>, books: Seq<Seq<Card>>, r: int)
    ensures
        book_upto(hand, books, r).1.len() >= books.len(),
        book_upto(hand, books, r).1.take(books.len() as int) == books,
        forall|k: int|
            books.len() <= k < book_upto(hand, books, r).1.len() ==> (#[trigger] book_upto(hand, books, r).1[k]).len()
                == 4,
        forall|k: int, i: int, j: int|
            books.len() <= k < book_upto(hand, books, r).1.len() && 0 <= i < 4 && 0 <= j < 4 ==> (
            #[trigger] book_upto(hand, books, r).1[k][i]).rank == (#[trigger] book_upto(
                hand,
                books,
                r,
            ).1[k][j]).rank,
    decreases r,
{
    if r <= 0 {
        assert(books.take(books.len() as int) =~= books);
    } else {
        lemma_book_upto_books(hand, books, r - 1);
        let prev = book_upto(hand, books, r - 1);
        let at = |c: Card| c.rank.pos() == r - 1;
        let run = rank_run(prev.0, r - 1);
        if run.len() == 4 {
            let next = prev.1.push(run);
            assert(next.take(books.len() as int) =~= prev.1.take(books.len() as int));
            assert(run =~= prev.0.filter(at));
            assert forall|i: int| 0 <= i < 4 implies #[trigger] run[i].rank.pos() == r - 1 by {
                prev.0.lemma_filter_pred(at, i);
            }
            assert forall|k: int, i: int, j: int|
                books.len() <= k < next.len() && 0 <= i < 4 && 0 <= j < 4 implies (
                #[trigger] next[k][i]).rank == (#[trigger] next[k][j]).rank by {
                if k == next.len() - 1 {
                    assert(next[k] == run);
                    assert(run[i].rank.pos() == run[j].rank.pos());
                } else {
                    assert(next[k] == prev.1[k]);
                }
            }
            assert forall|k: int| books.len() <= k < next.len() implies (#[trigger] next[k]).len()
                == 4 by {
                if k < next.len() - 1 {
                    assert(next[k] == prev.1[k]);
                }
            }
        }
    }
}

/// Where a predicate answers whether a card has rank `rank`, it selects the cards of that rank.
pub proof fn lemma_rank_answers<P: Fn(&Card) -> bool>(
    predicate: P,
    s: Seq<Card>,
    flags: Seq<bool>,
    rank: Rank,
)
    requires
        answers(predicate, s, flags),
        forall|c: &Card, b: bool| predicate.ensures((c,), b) ==> b == (c.rank == rank),
    ensures
        select(s, flags, true) == rank_run(s, rank.pos() as int),
        select(s, flags, false) == s.filter(|c: Card| !(c.rank.pos() == rank.pos() as int)),
{
    let f = |c: Card| c.rank.pos() == rank.pos() as int;
    assert forall|i: int| 0 <= i < s.len() implies #[trigger] flags[i] == f(s[i]) by {
        assert(predicate.ensures((&s[i],), flags[i]));
    }
    lemma_select_filter(s, flags, f);
    assert(rank_run(s, rank.pos() as int) =~= s.filter(f));
    let g = |c: Card| !(c.rank.pos() == rank.pos() as int);
    assert(g =~= (|c: Card| !f(c)));
    assert(s.filter(g) == s.filter(|c: Card| !f(c)));
}

/// The text of a book: all its cards, face up, one column of each behind the top.
pub open spec fn book_text(book: Seq<Card>, card_set: CardSet) -> Seq<char> {
    spec_render_deck(book, card_set, 0, None, true)
}

/// The text of books `books`: rows of five books (the last row may hold fewer), the books of a
/// row side by side with a space between them.
pub open spec fn spec_books_text(books: Seq<Seq<Card>>, card_set: CardSet) -> Seq<char>
    decreases books.len(),
{
    if books.len() == 0 {
        seq![]
    } else {
        let k = if books.len() < 5 {
            books.len() as int
        } else {
            5
        };
        spec_side_by_side(books.take(k).map_values(|b: Seq<Card>| book_text(b, card_set)), seq![' '])
            + spec_books_text(books.skip(k), card_set)
    }
}

/// A player of Go Fish: a person at the terminal or a random bot.
pub enum GoFishPlayer {
    Human(HumanPlayer),
    RandomBot(RandomBot),
}

impl GoFishPlayer {
    /// The cards in the player's hand.
    pub open spec fn hand_of(self) -> Seq<Card> {
        match self {
            GoFishPlayer::Human(p) => p.hand_view(),
            GoFishPlayer::RandomBot(b) => b.hand_view(),
        }
    }

    /// The player's books.
    pub open spec fn books_of(self) -> Seq<Seq<Card>> {
        match self {
            GoFishPlayer::Human(p) => p.books_view(),
            GoFishPlayer::RandomBot(b) => b.books_view(),
        }
    }

    /// The player's name.
    pub open spec fn name_of(self) -> Seq<char> {
        match self {
            GoFishPlayer::Human(p) => p.name_view(),
            GoFishPlayer::RandomBot(b) => b.name_view(),
        }
    }

    /// Whether the game prints information for this player (a person at the terminal).
    pub open spec fn inform(self) -> bool {
        self is Human
    }

    /// The name of the player.
    pub fn name(&self) -> (name: &str)
        ensures
            name@ == self.name_of(),
    {
        match self {
            GoFishPlayer::Human(p) => p.name(),
            GoFishPlayer::RandomBot(b) => b.name(),
        }
    }

    /// The player's hand.
    pub fn hand(&self) -> (hand: &Deck)
        ensures
            hand@ == self.hand_of(),
    {
        match self {
            GoFishPlayer::Human(p) => p.hand(),
            GoFishPlayer::RandomBot(b) => b.hand(),
        }
    }

    /// The player's hand, to change.
    pub fn hand_mut(&mut self) -> (hand: &mut Deck)
        ensures
            (*hand)@ == old(self).hand_of(),
            final(self).hand_of() == (*final(hand))@,
            final(self).name_of() == old(self).name_of(),
            final(self).books_of() == old(self).books_of(),
            final(self).inform() == old(self).inform(),
    {
        match self {
            GoFishPlayer::Human(p) => p.hand_mut(),
            GoFishPlayer::RandomBot(b) => b.hand_mut(),
        }
    }

    /// The player's books.
    pub fn books(&self) -> (books: &Vec<Deck>)
        ensures
            books@.map_values(|b: Deck| b@) == self.books_of(),
    {
        match self {
            GoFishPlayer::Human(p) => p.books(),
            GoFishPlayer::RandomBot(b) => b.books(),
        }
    }

    /// Adds the book `book` to the player's books.
    fn add_book(&mut self, book: Deck)
        ensures
            final(self).books_of() == old(self).books_of().push(book@),
            final(self).name_of() == old(self).name_of(),
            final(self).hand_of() == old(self).hand_of(),
            final(self).inform() == old(self).inform(),
    {
        match self {
            GoFishPlayer::Human(p) => p.add_book(book),
            GoFishPlayer::RandomBot(b) => b.add_book(book),
        }
    }

    /// The text of the player's books, in rows of five books side by side (empty where they
    /// have none).
    pub fn render_books(&self, card_set: &CardSet) -> (text: String)
        ensures
            text@ == spec_books_text(self.books_of(), *card_set),
    {
        let books = self.books();
        let ghost b = self.books_of();
        let n = books.len();
        let mut text = String::new();
        let mut i: usize = 0;
        let space = " ";
        proof {
            reveal_strlit(" ");
        }
        assert(b.skip(0) =~= b);
        while i < n
            invariant
                i <= n,
                n == b.len(),
                books@.map_values(|d: Deck| d@) == b,
                space@ == seq![' '],
                text@ + spec_books_text(b.skip(i as int), *card_set) == spec_books_text(b, *card_set),
            decreases n - i,
        {
            let end = if n - i < 5 {
                n
            } else {
                i + 5
            };
            let ghost rest = b.skip(i as int);
            let ghost row = rest.take(end - i).map_values(|d: Seq<Card>| book_text(d, *card_set));
            let mut texts: Vec<String> = Vec::new();
            let mut j: usize = i;
            while j < end
                invariant
                    i <= j <= end <= n,
                    n == b.len(),
                    books@.map_values(|d: Deck| d@) == b,
                    rest == b.skip(i as int),
                    texts@.len() == j - i,
                    forall|k: int| 0 <= k < j - i ==> #[trigger] texts@[k]@ == book_text(b[i + k], *card_set),
                decreases end - j,
            {
                assert(books@[j as int]@ == b[j as int]);
                let t = PrintDeck::from(&books[j]).render(card_set);
                texts.push(t);
                j += 1;
            }
            assert(string_views(texts@) =~= row);
            let line = string_side_by_side(texts.as_slice(), space);
            push_str(&mut text, line.as_str());
            proof {
                assert(rest.skip(end - i) =~= b.skip(end as int));
                assert(text@ + spec_books_text(b.skip(end as int), *card_set) =~= text@.subrange(
                    0,
                    text@.len() - line@.len(),
                ) + spec_books_text(rest, *card_set));
            }
            i = end;
        }
        assert(b.skip(n as int) =~= Seq::<Seq<Card>>::empty());
        assert(text@ + Seq::<char>::empty() =~= text@);
        text
    }

    /// Whether the game prints information for this player (a person at the terminal).
    pub fn informs(&self) -> (inform: bool)
        ensures
            inform == self.inform(),
    {
        match self {
            GoFishPlayer::Human(_) => true,
            GoFishPlayer::RandomBot(_) => false,
        }
    }

    /// Removes all books (all four cards of a rank) from the player's hand and adds them to
    /// their books, rank by rank from Two to Ace.
    pub fn book(&mut self)
        ensures
            (final(self).hand_of(), final(self).books_of()) == spec_book(
                old(self).hand_of(),
                old(self).books_of(),
            ),
            final(self).name_of() == old(self).name_of(),
            final(self).inform() == old(self).inform(),
    {
        let ranks = Rank::ranks();
        let mut r: usize = 0;
        while r < ranks.len()
            invariant
                r <= 13,
                ranks@ == Rank::all(),
                (self.hand_of(), self.books_of()) == book_upto(
                    old(self).hand_of(),
                    old(self).books_of(),
                    r as int,
                ),
                self.name_of() == old(self).name_of(),
                self.inform() == old(self).inform(),
            decreases 13 - r,
        {
            let rank = ranks[r];
            assert(rank.pos() == r);
            let ghost hand = self.hand_of();
            let ghost books = self.books_of();
            let is_rank = |card: &Card| -> (b: bool)
                ensures
                    b == (card.rank == rank),
                { card.rank == rank };
            let matching = self.hand().cards(is_rank);
            proof {
                let flags = choose|flags: Seq<bool>|
                    #[trigger] answers(is_rank, hand, flags) && matching@ == select(
                        hand,
                        flags,
                        true,
                    );
                lemma_rank_answers(is_rank, hand, flags, rank);
                assert(rank_run(hand, r as int) == matching@);
            }
            if matching.len() == 4 {
                let book = self.hand_mut().remove(is_rank);
                proof {
                    let flags = choose|flags: Seq<bool>|
                        #[trigger] answers(is_rank, hand, flags) && book@ == select(
                            hand,
                            flags,
                            true,
                        ) && self.hand_of() == select(hand, flags, false);
                    lemma_rank_answers(is_rank, hand, flags, rank);
                }
                self.add_book(book);
            }
            proof {
                let next = book_upto(old(self).hand_of(), old(self).books_of(), r + 1);
                assert(next == (self.hand_of(), self.books_of()));
            }
            r += 1;
        }
    }
}

} // verus!
