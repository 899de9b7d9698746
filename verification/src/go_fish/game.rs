//! The rules of Go Fish: dealing, asking, going fishing, making books.

use vstd::prelude::*;

use crate::card::{Card, Rank};
use crate::deck::{
    answers,
    cards_in,
    in_rank_order,
    lemma_cards_in_update,
    lemma_filter_partition,
    rank_run,
    select,
    sorted_by_rank,
    sorting_keeps_cards_in_rank_order,
    standard_deck,
    Deck,
};
use vstd::multiset::Multiset;
use super::players::{
    lemma_book_upto_keeps_order,
    booking_keeps_cards,
    books_are_four_of_a_kind,
    lemma_rank_answers,
    spec_book,
    GoFishPlayer,
};
use crate::text::{
    decimal,
    decimal_string,
    ordinal_string,
    ordinal_suffix,
    push_str,
    repeat_char,
    spec_uppercase_ascii,
    uppercase_ascii,
};
use crate::war::game::{byte_len, join_opt, repeated};

verus! {

/// The hands and deck after `steps` single deals: step k gives the top card of the deck, if
/// any, to player k modulo the number of players.
pub open spec fn deal_steps(hands: Seq<Seq<Card>>, deck: Seq<Card>, steps: int) -> (
    Seq<Seq<Card>>,
    Seq<Card>,
)
    decreases steps,
{
    if steps <= 0 || hands.len() == 0 {
        (hands, deck)
    } else {
        let prev = deal_steps(hands, deck, steps - 1);
        let p = (steps - 1) % (hands.len() as int);
        if prev.1.len() > 0 {
            (prev.0.update(p, prev.0[p].push(prev.1.last())), prev.1.drop_last())
        } else {
            prev
        }
    }
}

/// Dealing keeps the number of players.
pub proof fn lemma_deal_steps_len(hands: Seq<Seq<Card>>, deck: Seq<Card>, steps: int)
    ensures
        deal_steps(hands, deck, steps).0.len() == hands.len(),
    decreases steps,
{
    if steps > 0 && hands.len() > 0 {
        lemma_deal_steps_len(hands, deck, steps - 1);
    }
}

/// What a player's turn does.
pub struct TurnSpec {
    /// The hands after the turn.
    pub hands: Seq<Seq<Card>>,
    /// The books after the turn.
    pub books: Seq<Seq<Seq<Card>>>,
    /// The deck after the turn.
    pub deck: Seq<Card>,
    /// Whose turn it is next.
    pub current: int,
    /// Whether the player whose turn it is asks again.
    pub repeat: bool,
    /// `Some(end_pass)` where the player had nothing to ask for and the deck was empty.
    pub no_cards_left: Option<bool>,
    /// The rank asked for.
    pub rank: Rank,
    /// The card drawn to have something to ask for, if any.
    pub drawn_to_ask: Option<Card>,
    /// The cards the asked player handed over.
    pub gathered: Seq<Card>,
    /// The card drawn when told to go fish, if any.
    pub fished: Option<Card>,
}

/// The turn of player `c`, who asks player `a` for `picked` (for `None`, they draw a card and
/// ask for its rank): the asked player hands over all cards of that rank, and the asking player
/// asks again; where there are none, the asking player goes fishing (draws a card) and the turn
/// passes. The asking player's hand is then sorted and their books made. Where the player has
/// nothing to ask for and the deck is empty, nothing changes but the turn: it passes to the next
/// player, or, where the player was asking again, the round of turns ends (the player stays).
pub open spec fn spec_turn(
    hands: Seq<Seq<Card>>,
    books: Seq<Seq<Seq<Card>>>,
    deck: Seq<Card>,
    c: int,
    a: int,
    picked: Option<Rank>,
    repeat: bool,
) -> TurnSpec {
    if picked is None && deck.len() == 0 {
        TurnSpec {
            hands,
            books,
            deck,
            current: if repeat {
                c
            } else {
                c + 1
            },
            repeat,
            no_cards_left: Some(repeat),
            rank: Rank::Two,
            drawn_to_ask: None,
            gathered: seq![],
            fished: None,
        }
    } else {
        let (hands1, deck1, rank, drawn) = match picked {
            Some(r) => (hands, deck, r, None),
            None => (
                hands.update(c, hands[c].push(deck.last())),
                deck.drop_last(),
                deck.last().rank,
                Some(deck.last()),
            ),
        };
        let gathered = rank_run(hands1[a], rank.pos() as int);
        let hands2 = hands1.update(a, hands1[a].filter(|x: Card| !(x.rank.pos() == rank.pos() as int)));
        let (hands3, deck2, fished, again) = if gathered.len() == 0 {
            if deck1.len() > 0 {
                (
                    hands2.update(c, hands2[c].push(deck1.last())),
                    deck1.drop_last(),
                    Some(deck1.last()),
                    false,
                )
            } else {
                (hands2, deck1, None, false)
            }
        } else {
            (hands2.update(c, hands2[c] + gathered), deck1, None, true)
        };
        let booked = spec_book(sorted_by_rank(hands3[c]), books[c]);
        TurnSpec {
            hands: hands3.update(c, booked.0),
            books: books.update(c, booked.1),
            deck: deck2,
            current: if again {
                c
            } else {
                c + 1
            },
            repeat: again,
            no_cards_left: None,
            rank,
            drawn_to_ask: drawn,
            gathered,
            fished,
        }
    }
}

// ---------------------------------------------------------------------------
// No card is made or lost
// ---------------------------------------------------------------------------
/// The cards in the books of all players.
pub open spec fn books_cards(books: Seq<Seq<Seq<Card>>>) -> Multiset<Card> {
    cards_in(books.map_values(|b: Seq<Seq<Card>>| b.flatten()))
}

/// All the cards of a game: in the hands, in the books and in the deck.
pub open spec fn table_cards(hands: Seq<Seq<Card>>, books: Seq<Seq<Seq<Card>>>, deck: Seq<Card>) -> Multiset<
    Card,
> {
    cards_in(hands).add(books_cards(books)).add(deck.to_multiset())
}

/// Moving the top card of the deck to hand `i` keeps the cards of the hands and the deck.
proof fn lemma_move_top(hands: Seq<Seq<Card>>, deck: Seq<Card>, i: int)
    requires
        0 <= i < hands.len(),
        deck.len() > 0,
    ensures
        cards_in(hands.update(i, hands[i].push(deck.last()))).add(deck.drop_last().to_multiset())
            == cards_in(hands).add(deck.to_multiset()),
{
    broadcast use vstd::seq_lib::group_to_multiset_ensures;
    broadcast use vstd::multiset::group_multiset_axioms;

    let next = hands.update(i, hands[i].push(deck.last()));
    lemma_cards_in_update(hands, i, hands[i].push(deck.last()));
    assert(deck =~= deck.drop_last().push(deck.last()));
    assert forall|x: Card| #[trigger] cards_in(next).add(deck.drop_last().to_multiset()).count(x)
        == cards_in(hands).add(deck.to_multiset()).count(x) by {
        assert(cards_in(next).add(hands[i].to_multiset()).count(x) == cards_in(hands).add(
            hands[i].push(deck.last()).to_multiset(),
        ).count(x));
    }
    assert(cards_in(next).add(deck.drop_last().to_multiset()) =~= cards_in(hands).add(
        deck.to_multiset(),
    ));
}

/// Taking the cards of rank place `r` out of hand `a` keeps the cards of the hands and the
/// cards taken.
proof fn lemma_take_rank(hands: Seq<Seq<Card>>, a: int, r: int)
    requires
        0 <= a < hands.len(),
    ensures
        cards_in(hands.update(a, hands[a].filter(|x: Card| !(x.rank.pos() == r)))).add(
            rank_run(hands[a], r).to_multiset(),
        ) == cards_in(hands),
{
    broadcast use vstd::multiset::group_multiset_axioms;

    let at = |c: Card| c.rank.pos() == r;
    let rest = hands[a].filter(|x: Card| !(x.rank.pos() == r));
    lemma_filter_partition(hands[a], at);
    assert((|x: Card| !(x.rank.pos() == r)) =~= (|c: Card| !at(c)));
    assert(rest == hands[a].filter(|c: Card| !at(c)));
    assert(rank_run(hands[a], r) =~= hands[a].filter(at));
    let next = hands.update(a, rest);
    lemma_cards_in_update(hands, a, rest);
    assert forall|x: Card| #[trigger] cards_in(next).add(rank_run(hands[a], r).to_multiset()).count(
        x,
    ) == cards_in(hands).count(x) by {
        assert(cards_in(next).add(hands[a].to_multiset()).count(x) == cards_in(hands).add(
            rest.to_multiset(),
        ).count(x));
    }
    assert(cards_in(next).add(rank_run(hands[a], r).to_multiset()) =~= cards_in(hands));
}

/// Giving the cards `g` to hand `c` adds them to the cards of the hands.
proof fn lemma_give(hands: Seq<Seq<Card>>, c: int, g: Seq<Card>)
    requires
        0 <= c < hands.len(),
    ensures
        cards_in(hands.update(c, hands[c] + g)) == cards_in(hands).add(g.to_multiset()),
{
    broadcast use vstd::seq_lib::lemma_multiset_commutative;
    broadcast use vstd::multiset::group_multiset_axioms;

    let next = hands.update(c, hands[c] + g);
    lemma_cards_in_update(hands, c, hands[c] + g);
    assert forall|x: Card| #[trigger] cards_in(next).count(x) == cards_in(hands).add(
        g.to_multiset(),
    ).count(x) by {
        assert(cards_in(next).add(hands[c].to_multiset()).count(x) == cards_in(hands).add(
            (hands[c] + g).to_multiset(),
        ).count(x));
    }
    assert(cards_in(next) =~= cards_in(hands).add(g.to_multiset()));
}

/// Sorting hand `c` and making its books keeps the cards of the hands and the books.
proof fn lemma_sort_and_book(hands: Seq<Seq<Card>>, books: Seq<Seq<Seq<Card>>>, c: int)
    requires
        0 <= c < hands.len(),
        books.len() == hands.len(),
    ensures
        ({
            let booked = spec_book(sorted_by_rank(hands[c]), books[c]);
            cards_in(hands.update(c, booked.0)).add(books_cards(books.update(c, booked.1)))
                == cards_in(hands).add(books_cards(books))
        }),
{
    broadcast use vstd::multiset::group_multiset_axioms;

    let sorted = sorted_by_rank(hands[c]);
    let booked = spec_book(sorted, books[c]);
    sorting_keeps_cards_in_rank_order(hands[c]);
    booking_keeps_cards(sorted, books[c], 13);
    let flat = |b: Seq<Seq<Card>>| b.flatten();
    let piles = books.map_values(flat);
    assert(books.update(c, booked.1).map_values(flat) =~= piles.update(c, booked.1.flatten()));
    lemma_cards_in_update(hands, c, booked.0);
    lemma_cards_in_update(piles, c, booked.1.flatten());
    let h2 = hands.update(c, booked.0);
    let p2 = piles.update(c, booked.1.flatten());
    assert forall|x: Card| #[trigger] cards_in(h2).add(cards_in(p2)).count(x) == cards_in(hands).add(
        cards_in(piles),
    ).count(x) by {
        assert(cards_in(h2).add(hands[c].to_multiset()).count(x) == cards_in(hands).add(
            booked.0.to_multiset(),
        ).count(x));
        assert(cards_in(p2).add(piles[c].to_multiset()).count(x) == cards_in(piles).add(
            booked.1.flatten().to_multiset(),
        ).count(x));
        assert(booked.0.to_multiset().add(booked.1.flatten().to_multiset()).count(x)
            == sorted.to_multiset().add(books[c].flatten().to_multiset()).count(x));
    }
    assert(cards_in(h2).add(cards_in(p2)) =~= cards_in(hands).add(cards_in(piles)));
}

/// A turn makes and loses no card: the hands, the books and the deck hold the same cards
/// after it as before.
pub proof fn turn_keeps_cards(
    hands: Seq<Seq<Card>>,
    books: Seq<Seq<Seq<Card>>>,
    deck: Seq<Card>,
    c: int,
    a: int,
    picked: Option<Rank>,
    repeat: bool,
)
    requires
        0 <= c < hands.len(),
        0 <= a < hands.len(),
        books.len() == hands.len(),
    ensures
        ({
            let t = spec_turn(hands, books, deck, c, a, picked, repeat);
            table_cards(t.hands, t.books, t.deck) == table_cards(hands, books, deck)
        }),
{
    broadcast use vstd::multiset::group_multiset_axioms;

    if picked is None && deck.len() == 0 {
    } else {
        let (hands1, deck1, rank) = match picked {
            Some(r) => (hands, deck, r),
            None => (hands.update(c, hands[c].push(deck.last())), deck.drop_last(), deck.last().rank),
        };
        if picked is None {
            lemma_move_top(hands, deck, c);
        }
        assert(cards_in(hands1).add(deck1.to_multiset()) == cards_in(hands).add(deck.to_multiset()));
        let r = rank.pos() as int;
        let gathered = rank_run(hands1[a], r);
        let hands2 = hands1.update(a, hands1[a].filter(|x: Card| !(x.rank.pos() == r)));
        lemma_take_rank(hands1, a, r);
        let (hands3, deck2) = if gathered.len() == 0 {
            if deck1.len() > 0 {
                (hands2.update(c, hands2[c].push(deck1.last())), deck1.drop_last())
            } else {
                (hands2, deck1)
            }
        } else {
            (hands2.update(c, hands2[c] + gathered), deck1)
        };
        if gathered.len() == 0 {
            assert(gathered.to_multiset() =~= Multiset::empty()) by {
                broadcast use vstd::seq_lib::group_to_multiset_ensures;
            }
            if deck1.len() > 0 {
                lemma_move_top(hands2, deck1, c);
            }
        } else {
            lemma_give(hands2, c, gathered);
        }
        assert(cards_in(hands3).add(deck2.to_multiset()) =~= cards_in(hands).add(deck.to_multiset()));
        lemma_sort_and_book(hands3, books, c);
        let t = spec_turn(hands, books, deck, c, a, picked, repeat);
        let booked = spec_book(sorted_by_rank(hands3[c]), books[c]);
        assert(t.deck == deck2);
        assert(t.hands == hands3.update(c, booked.0));
        assert(t.books == books.update(c, booked.1));
        assert forall|x: Card| #[trigger] table_cards(t.hands, t.books, t.deck).count(x)
            == table_cards(hands, books, deck).count(x) by {
            assert(cards_in(t.hands).add(books_cards(t.books)).count(x) == cards_in(hands3).add(
                books_cards(books),
            ).count(x));
            assert(cards_in(hands3).add(deck2.to_multiset()).count(x) == cards_in(hands).add(
                deck.to_multiset(),
            ).count(x));
        }
        assert(table_cards(t.hands, t.books, t.deck) =~= table_cards(hands, books, deck));
    }
}

/// A turn never takes a book away: the other players' books stay as they were, and the player
/// whose turn it is keeps their books and may add books, each of four cards of one rank.
pub proof fn turn_only_adds_books(
    hands: Seq<Seq<Card>>,
    books: Seq<Seq<Seq<Card>>>,
    deck: Seq<Card>,
    c: int,
    a: int,
    picked: Option<Rank>,
    repeat: bool,
)
    requires
        0 <= c < hands.len(),
        0 <= a < hands.len(),
        books.len() == hands.len(),
    ensures
        ({
            let t = spec_turn(hands, books, deck, c, a, picked, repeat);
            &&& t.books.len() == books.len()
            &&& forall|p: int| 0 <= p < books.len() && p != c ==> #[trigger] t.books[p] == books[p]
            &&& t.books[c].len() >= books[c].len()
            &&& t.books[c].take(books[c].len() as int) == books[c]
            &&& forall|k: int|
                books[c].len() <= k < t.books[c].len() ==> (#[trigger] t.books[c][k]).len() == 4
            &&& forall|k: int, i: int, j: int|
                books[c].len() <= k < t.books[c].len() && 0 <= i < 4 && 0 <= j < 4 ==> (
                #[trigger] t.books[c][k][i]).rank == (#[trigger] t.books[c][k][j]).rank
        }),
{
    let t = spec_turn(hands, books, deck, c, a, picked, repeat);
    if picked is None && deck.len() == 0 {
        assert(books[c].take(books[c].len() as int) =~= books[c]);
    } else {
        let (hands1, deck1, rank) = match picked {
            Some(r) => (hands, deck, r),
            None => (hands.update(c, hands[c].push(deck.last())), deck.drop_last(), deck.last().rank),
        };
        let r = rank.pos() as int;
        let gathered = rank_run(hands1[a], r);
        let hands2 = hands1.update(a, hands1[a].filter(|x: Card| !(x.rank.pos() == r)));
        let deck2 = if gathered.len() == 0 && deck1.len() > 0 {
            deck1.drop_last()
        } else {
            deck1
        };
        let hands3 = if gathered.len() == 0 {
            if deck1.len() > 0 {
                hands2.update(c, hands2[c].push(deck1.last()))
            } else {
                hands2
            }
        } else {
            hands2.update(c, hands2[c] + gathered)
        };
        let booked = spec_book(sorted_by_rank(hands3[c]), books[c]);
        assert(t.books == books.update(c, booked.1));
        books_are_four_of_a_kind(sorted_by_rank(hands3[c]), books[c]);
    }
}

/// After a turn the hand of the player whose turn it was is in rank order.
pub proof fn turn_leaves_hand_sorted(
    hands: Seq<Seq<Card>>,
    books: Seq<Seq<Seq<Card>>>,
    deck: Seq<Card>,
    c: int,
    a: int,
    picked: Option<Rank>,
    repeat: bool,
)
    requires
        0 <= c < hands.len(),
        0 <= a < hands.len(),
        books.len() == hands.len(),
        !(picked is None && deck.len() == 0),
    ensures
        in_rank_order(spec_turn(hands, books, deck, c, a, picked, repeat).hands[c]),
{
    let (hands1, deck1, rank) = match picked {
        Some(r) => (hands, deck, r),
        None => (hands.update(c, hands[c].push(deck.last())), deck.drop_last(), deck.last().rank),
    };
    let r = rank.pos() as int;
    let gathered = rank_run(hands1[a], r);
    let hands2 = hands1.update(a, hands1[a].filter(|x: Card| !(x.rank.pos() == r)));
    let hands3 = if gathered.len() == 0 {
        if deck1.len() > 0 {
            hands2.update(c, hands2[c].push(deck1.last()))
        } else {
            hands2
        }
    } else {
        hands2.update(c, hands2[c] + gathered)
    };
    let sorted = sorted_by_rank(hands3[c]);
    sorting_keeps_cards_in_rank_order(hands3[c]);
    lemma_book_upto_keeps_order(sorted, books[c], 13);
    let t = spec_turn(hands, books, deck, c, a, picked, repeat);
    assert(t.hands[c] == spec_book(sorted, books[c]).0);
}

/// Empty hands hold no card.
proof fn lemma_empty_hands(hands: Seq<Seq<Card>>)
    requires
        forall|i: int| 0 <= i < hands.len() ==> #[trigger] hands[i].len() == 0,
    ensures
        cards_in(hands) == Multiset::<Card>::empty(),
    decreases hands.len(),
{
    broadcast use vstd::seq_lib::group_to_multiset_ensures;
    broadcast use vstd::multiset::group_multiset_axioms;

    if hands.len() > 0 {
        assert forall|i: int| 0 <= i < hands.drop_last().len() implies #[trigger] hands.drop_last()[i].len()
            == 0 by {
            assert(hands.drop_last()[i] == hands[i]);
        }
        lemma_empty_hands(hands.drop_last());
        assert(hands.last().len() == 0);
        assert(hands.last().to_multiset() =~= Multiset::empty());
        assert(cards_in(hands) =~= Multiset::empty());
    }
}

/// When a game that holds the 52 cards of a deck is over (the deck and every hand empty), the
/// books hold those 52 cards.
pub proof fn finished_game_books_hold_every_card(
    hands: Seq<Seq<Card>>,
    books: Seq<Seq<Seq<Card>>>,
    deck: Seq<Card>,
)
    requires
        table_cards(hands, books, deck) == standard_deck().to_multiset(),
        deck.len() == 0,
        forall|i: int| 0 <= i < hands.len() ==> #[trigger] hands[i].len() == 0,
    ensures
        books_cards(books) == standard_deck().to_multiset(),
{
    broadcast use vstd::seq_lib::group_to_multiset_ensures;
    broadcast use vstd::multiset::group_multiset_axioms;

    lemma_empty_hands(hands);
    assert(deck.to_multiset() =~= Multiset::empty());
    assert(table_cards(hands, books, deck) =~= books_cards(books));
}

/// Sorting every hand keeps the cards of the hands.
pub proof fn lemma_sort_all_keeps_cards(hands: Seq<Seq<Card>>)
    ensures
        cards_in(hands.map_values(|h: Seq<Card>| sorted_by_rank(h))) == cards_in(hands),
    decreases hands.len(),
{
    broadcast use vstd::multiset::group_multiset_axioms;

    if hands.len() > 0 {
        let f = |h: Seq<Card>| sorted_by_rank(h);
        lemma_sort_all_keeps_cards(hands.drop_last());
        sorting_keeps_cards_in_rank_order(hands.last());
        assert(hands.map_values(f).drop_last() =~= hands.drop_last().map_values(f));
        assert(cards_in(hands.map_values(f)) =~= cards_in(hands));
    }
}

/// Single deals make and lose no card: the hands and the deck hold the same cards after them
/// as before.
pub proof fn lemma_deal_steps_keeps_cards(hands: Seq<Seq<Card>>, deck: Seq<Card>, steps: int)
    ensures
        cards_in(deal_steps(hands, deck, steps).0).add(deal_steps(hands, deck, steps).1.to_multiset())
            == cards_in(hands).add(deck.to_multiset()),
    decreases steps,
{
    if steps > 0 && hands.len() > 0 {
        lemma_deal_steps_keeps_cards(hands, deck, steps - 1);
        lemma_deal_steps_len(hands, deck, steps - 1);
        let prev = deal_steps(hands, deck, steps - 1);
        let p = (steps - 1) % (hands.len() as int);
        if prev.1.len() > 0 {
            lemma_move_top(prev.0, prev.1, p);
        }
    }
}

/// Dealing makes and loses no card: the sorted hands and the deck hold the same cards after
/// dealing as the hands and the deck held before.
pub proof fn deal_keeps_cards(hands: Seq<Seq<Card>>, deck: Seq<Card>, steps: int)
    ensures
        cards_in(deal_steps(hands, deck, steps).0.map_values(|h: Seq<Card>| sorted_by_rank(h))).add(
            deal_steps(hands, deck, steps).1.to_multiset(),
        ) == cards_in(hands).add(deck.to_multiset()),
{
    lemma_deal_steps_keeps_cards(hands, deck, steps);
    lemma_sort_all_keeps_cards(deal_steps(hands, deck, steps).0);
}

/// The other players than `current`, with their names, in order.
pub open spec fn others(names: Seq<Seq<char>>, current: int, upto: int) -> Seq<(usize, Seq<char>)>
    decreases upto,
{
    if upto <= 0 {
        seq![]
    } else {
        others(names, current, upto - 1) + (if upto - 1 != current {
            seq![((upto - 1) as usize, names[upto - 1])]
        } else {
            seq![]
        })
    }
}

/// What everyone can see of a player.
#[derive(Debug)]
pub struct PlayerInfo {
    pub name: String,
    pub amount_of_cards: usize,
    pub amount_of_books: usize,
}

impl PlayerInfo {
    /// What everyone can see of `player`: their name, and how many cards and books they have.
    pub fn from(player: &GoFishPlayer) -> (info: PlayerInfo)
        ensures
            info.name@ == player.name_of(),
            info.amount_of_cards == player.hand_of().len(),
            info.amount_of_books == player.books_of().len(),
    {
        PlayerInfo {
            name: String::from_str(player.name()),
            amount_of_cards: player.hand().len(),
            amount_of_books: player.books().len(),
        }
    }
}

/// What everyone can see of a game.
#[derive(Debug)]
pub struct PublicInformation {
    pub deck_length: usize,
    pub player_info: Vec<PlayerInfo>,
}

/// What happened in a player's turn, for the players to see.
pub enum TurnOutcome {
    /// The player had nothing to ask for and the deck was empty; where `end_pass` holds the
    /// round of turns ends, else the turn passes to the next player.
    NoCardsLeft { end_pass: bool },
    /// The player asked for `rank`.
    Asked {
        /// The rank asked for.
        rank: Rank,
        /// The card drawn to have something to ask for, if any.
        drawn_to_ask: Option<Card>,
        /// The cards the asked player handed over.
        gathered: Deck,
        /// The card drawn when told to go fish, if any.
        fished: Option<Card>,
        /// Whether the player asks again.
        ask_again: bool,
    },
}

/// A game of Go Fish.
pub struct GoFish {
    players: Vec<GoFishPlayer>,
    deck: Deck,
    /// Whose turn it is.
    current_player: usize,
    /// Whether the player whose turn it is asks again.
    current_player_repeat: bool,
}

/// The hands of a list of players.
pub open spec fn hands_of(players: Seq<GoFishPlayer>) -> Seq<Seq<Card>> {
    players.map_values(|p: GoFishPlayer| p.hand_of())
}

/// The books of a list of players.
pub open spec fn books_of(players: Seq<GoFishPlayer>) -> Seq<Seq<Seq<Card>>> {
    players.map_values(|p: GoFishPlayer| p.books_of())
}

/// The names of a list of players.
pub open spec fn names_of(players: Seq<GoFishPlayer>) -> Seq<Seq<char>> {
    players.map_values(|p: GoFishPlayer| p.name_of())
}

/// Which of a list of players are persons at the terminal.
pub open spec fn informs_of(players: Seq<GoFishPlayer>) -> Seq<bool> {
    players.map_values(|p: GoFishPlayer| p.inform())
}

/// Changing one player changes only that player's hand, books, name and kind.
pub proof fn lemma_players_update(players: Seq<GoFishPlayer>, i: int, p: GoFishPlayer)
    requires
        0 <= i < players.len(),
    ensures
        hands_of(players.update(i, p)) == hands_of(players).update(i, p.hand_of()),
        books_of(players.update(i, p)) == books_of(players).update(i, p.books_of()),
        names_of(players.update(i, p)) == names_of(players).update(i, p.name_of()),
        informs_of(players.update(i, p)) == informs_of(players).update(i, p.inform()),
{
    assert(hands_of(players.update(i, p)) =~= hands_of(players).update(i, p.hand_of()));
    assert(books_of(players.update(i, p)) =~= books_of(players).update(i, p.books_of()));
    assert(names_of(players.update(i, p)) =~= names_of(players).update(i, p.name_of()));
    assert(informs_of(players.update(i, p)) =~= informs_of(players).update(i, p.inform()));
}

/// A copy of the cards of `d`.
fn copy_deck(d: &Deck) -> (copy: Deck)
    ensures
        copy@ == d@,
{
    let mut copy = Deck::empty();
    let mut k: usize = 0;
    while k < d.len()
        invariant
            k <= d@.len(),
            copy@ == d@.take(k as int),
        decreases d@.len() - k,
    {
        copy.stack(d.card_at_index(k));
        k += 1;
        assert(copy@ =~= d@.take(k as int));
    }
    assert(d@.take(d@.len() as int) =~= d@);
    copy
}

impl GoFish {
    /// The cards in each player's hand.
    pub closed spec fn hands(self) -> Seq<Seq<Card>> {
        hands_of(self.players@)
    }

    /// The books of each player.
    pub closed spec fn books(self) -> Seq<Seq<Seq<Card>>> {
        books_of(self.players@)
    }

    /// The name of each player.
    pub closed spec fn names(self) -> Seq<Seq<char>> {
        names_of(self.players@)
    }

    /// Which players are persons at the terminal.
    pub closed spec fn informs(self) -> Seq<bool> {
        informs_of(self.players@)
    }

    /// The cards left in the deck (the last is the top).
    pub closed spec fn deck_view(self) -> Seq<Card> {
        self.deck@
    }

    /// Whose turn it is.
    pub closed spec fn current(self) -> int {
        self.current_player as int
    }

    /// Whether the player whose turn it is asks again.
    pub closed spec fn repeat(self) -> bool {
        self.current_player_repeat
    }

    /// Creates a game of Go Fish with the players `players` and a shuffled 52 card deck.
    pub fn new(players: Vec<GoFishPlayer>) -> (game: GoFish)
        ensures
            game.hands() == hands_of(players@),
            game.books() == books_of(players@),
            game.names() == names_of(players@),
            game.informs() == informs_of(players@),
            game.deck_view().len() == 52,
            game.deck_view().to_multiset() == standard_deck().to_multiset(),
            table_cards(game.hands(), game.books(), game.deck_view()) == cards_in(
                hands_of(players@),
            ).add(books_cards(books_of(players@))).add(standard_deck().to_multiset()),
            game.current() == 0,
            !game.repeat(),
    {
        GoFish {
            players,
            deck: Deck::shuffled_52_card(),
            current_player: 0,
            current_player_repeat: false,
        }
    }

    /// The number of players.
    pub fn player_count(&self) -> (n: usize)
        ensures
            n == self.hands().len(),
    {
        self.players.len()
    }

    /// The player at index `player_index`.
    pub fn player(&self, player_index: usize) -> (player: &GoFishPlayer)
        requires
            player_index < self.hands().len(),
        ensures
            player.hand_of() == self.hands()[player_index as int],
            player.books_of() == self.books()[player_index as int],
            player.name_of() == self.names()[player_index as int],
            player.inform() == self.informs()[player_index as int],
    {
        &self.players[player_index]
    }

    /// The number of cards left in the deck.
    pub fn amount_of_cards_in_deck(&self) -> (n: usize)
        ensures
            n == self.deck_view().len(),
    {
        self.deck.len()
    }

    /// How many cards to deal to each player: by default 7 where fewer than four play, else 5;
    /// at most the cards of the deck shared out evenly.
    pub fn deal_options(&self) -> (options: (usize, usize))
        requires
            self.hands().len() > 0,
        ensures
            options.0 == (if self.hands().len() < 4 {
                7usize
            } else {
                5usize
            }),
            options.1 == self.deck_view().len() / self.hands().len(),
    {
        let n = self.players.len();
        let default = if n < 4 {
            7
        } else {
            5
        };
        (default, self.deck.len() / n)
    }

    /// The leaderboard of the game: the players sorted by number of books, most first; players
    /// with as many books keep their order.
    pub fn leaderboard(&self) -> (board: Leaderboard<'_>)
        ensures
            board.entries() == sort_desc(
                Seq::new(
                    self.names().len(),
                    |i: int| (self.names()[i], self.books()[i].len()),
                ),
            ),
    {
        let board = Leaderboard::from_players(self.players.as_slice());
        assert(self.players@.map_values(|p: GoFishPlayer| entry_of(&p)) =~= Seq::new(
            self.names().len(),
            |i: int| (self.names()[i], self.books()[i].len()),
        ));
        board
    }

    /// Whether the game is over: the deck and every hand are empty.
    pub fn is_over(&self) -> (over: bool)
        ensures
            over == (self.deck_view().len() == 0 && forall|i: int|
                0 <= i < self.hands().len() ==> #[trigger] self.hands()[i].len() == 0),
    {
        self.deck.len() == 0 && self.all_hands_empty()
    }

    /// Whose turn it is.
    pub fn current_player(&self) -> (p: usize)
        ensures
            p == self.current(),
    {
        self.current_player
    }

    /// Deals `n_cards` rounds: in each, every player in turn takes the top card of the deck
    /// while there is one. Then every hand is sorted by rank.
    pub fn deal(&mut self, n_cards: usize)
        ensures
            ({
                let d = deal_steps(
                    old(self).hands(),
                    old(self).deck_view(),
                    n_cards * old(self).hands().len(),
                );
                &&& final(self).hands() == d.0.map_values(|h: Seq<Card>| sorted_by_rank(h))
                &&& final(self).deck_view() == d.1
            }),
            table_cards(final(self).hands(), final(self).books(), final(self).deck_view())
                == table_cards(old(self).hands(), old(self).books(), old(self).deck_view()),
            final(self).books() == old(self).books(),
            final(self).names() == old(self).names(),
            final(self).informs() == old(self).informs(),
            final(self).current() == old(self).current(),
            final(self).repeat() == old(self).repeat(),
    {
        let n = self.players.len();
        let ghost h0 = self.hands();
        let ghost d0 = self.deck@;
        let mut i: usize = 0;
        while i < n_cards
            invariant
                i <= n_cards,
                n == self.hands().len(),
                h0.len() == n,
                ({
                    let d = deal_steps(h0, d0, i * n);
                    &&& self.hands() == d.0
                    &&& self.deck@ == d.1
                }),
                self.books() == old(self).books(),
                self.names() == old(self).names(),
                self.informs() == old(self).informs(),
                self.current() == old(self).current(),
                self.repeat() == old(self).repeat(),
            decreases n_cards - i,
        {
            let mut j: usize = 0;
            while j < n
                invariant
                    j <= n,
                    i < n_cards,
                    n == self.hands().len(),
                    h0.len() == n,
                    ({
                        let d = deal_steps(h0, d0, i * n + j);
                        &&& self.hands() == d.0
                        &&& self.deck@ == d.1
                    }),
                    self.books() == old(self).books(),
                    self.names() == old(self).names(),
                    self.informs() == old(self).informs(),
                    self.current() == old(self).current(),
                    self.repeat() == old(self).repeat(),
                decreases n - j,
            {
                proof {
                    let k = i * n + j;
                    vstd::arithmetic::div_mod::lemma_mod_multiples_vanish(i as int, j as int, n as int);
                    vstd::arithmetic::div_mod::lemma_small_mod(j as nat, n as nat);
                    assert((n * i + j) % (n as int) == j as int);
                    assert(n * i == i * n) by (nonlinear_arith);
                    assert(k % (n as int) == j as int);
                    lemma_deal_steps_len(h0, d0, k);
                }
                if let Some(card) = self.deck.draw() {
                    let ghost old_players = self.players@;
                    self.players[j].hand_mut().stack(card);
                    proof {
                        lemma_players_update(old_players, j as int, self.players@[j as int]);
                        assert(self.players@ == old_players.update(j as int, self.players@[j as int]));
                    }
                }
                j += 1;
            }
            assert((i + 1) * n == i * n + n) by (nonlinear_arith);
            i += 1;
        }
        let ghost dealt = self.hands();
        let mut j: usize = 0;
        while j < n
            invariant
                j <= n,
                n == self.hands().len(),
                dealt.len() == n,
                forall|k: int| 0 <= k < j ==> #[trigger] self.hands()[k] == sorted_by_rank(dealt[k]),
                forall|k: int| j <= k < n ==> #[trigger] self.hands()[k] == dealt[k],
                self.deck@ == deal_steps(h0, d0, n_cards * n).1,
                self.books() == old(self).books(),
                self.names() == old(self).names(),
                self.informs() == old(self).informs(),
                self.current() == old(self).current(),
                self.repeat() == old(self).repeat(),
            decreases n - j,
        {
            let ghost old_players = self.players@;
            assert(self.hands()[j as int] == dealt[j as int]);
            assert(old_players[j as int].hand_of() == dealt[j as int]);
            self.players[j].hand_mut().sort();
            proof {
                lemma_players_update(old_players, j as int, self.players@[j as int]);
                assert(self.players@ == old_players.update(j as int, self.players@[j as int]));
                assert(self.hands()[j as int] == sorted_by_rank(dealt[j as int]));
            }
            j += 1;
        }
        assert(self.hands() =~= dealt.map_values(|h: Seq<Card>| sorted_by_rank(h)));
        proof {
            deal_keeps_cards(h0, d0, n_cards * n);
            let bc = books_cards(self.books());
            assert forall|x: Card| #[trigger] table_cards(self.hands(), self.books(), self.deck@).count(
                x,
            ) == table_cards(h0, self.books(), d0).count(x) by {
                assert(cards_in(self.hands()).add(self.deck@.to_multiset()).count(x) == cards_in(
                    h0,
                ).add(d0.to_multiset()).count(x));
            }
            assert(table_cards(self.hands(), self.books(), self.deck@) =~= table_cards(
                h0,
                self.books(),
                d0,
            ));
        }
    }

    /// What everyone can see: the number of cards in the deck, and each player's name and
    /// number of cards and books.
    pub fn public_information(&self) -> (info: PublicInformation)
        ensures
            info.deck_length == self.deck_view().len(),
            info.player_info@.len() == self.hands().len(),
            forall|i: int|
                0 <= i < self.hands().len() ==> {
                    &&& (#[trigger] info.player_info@[i]).name@ == self.names()[i]
                    &&& info.player_info@[i].amount_of_cards == self.hands()[i].len()
                    &&& info.player_info@[i].amount_of_books == self.books()[i].len()
                },
    {
        let mut player_info: Vec<PlayerInfo> = Vec::new();
        let mut i: usize = 0;
        while i < self.players.len()
            invariant
                i <= self.players@.len(),
                player_info@.len() == i,
                forall|k: int|
                    0 <= k < i ==> {
                        &&& (#[trigger] player_info@[k]).name@ == self.names()[k]
                        &&& player_info@[k].amount_of_cards == self.hands()[k].len()
                        &&& player_info@[k].amount_of_books == self.books()[k].len()
                    },
            decreases self.players@.len() - i,
        {
            player_info.push(PlayerInfo::from(&self.players[i]));
            i += 1;
        }
        PublicInformation { deck_length: self.deck.len(), player_info }
    }

    /// The other players than `current_player`, with their names, in order.
    pub fn other_players(&self, current_player: usize) -> (other: Vec<(usize, &str)>)
        ensures
            other@.map_values(|e: (usize, &str)| (e.0, e.1@)) == others(
                self.names(),
                current_player as int,
                self.names().len() as int,
            ),
    {
        let mut other: Vec<(usize, &str)> = Vec::new();
        let mut i: usize = 0;
        while i < self.players.len()
            invariant
                i <= self.players@.len(),
                other@.map_values(|e: (usize, &str)| (e.0, e.1@)) == others(
                    self.names(),
                    current_player as int,
                    i as int,
                ),
            decreases self.players@.len() - i,
        {
            if i != current_player {
                other.push((i, self.players[i].name()));
                assert(other@.map_values(|e: (usize, &str)| (e.0, e.1@)) =~= others(
                    self.names(),
                    current_player as int,
                    i as int,
                ).push((i, self.names()[i as int])));
            }
            i += 1;
        }
        other
    }

    /// Whether every player's hand is empty (the game goes on while one is not).
    pub fn all_hands_empty(&self) -> (empty: bool)
        ensures
            empty == forall|i: int| 0 <= i < self.hands().len() ==> #[trigger] self.hands()[i].len() == 0,
    {
        let mut i: usize = 0;
        while i < self.players.len()
            invariant
                i <= self.players@.len(),
                forall|k: int| 0 <= k < i ==> #[trigger] self.hands()[k].len() == 0,
            decreases self.players@.len() - i,
        {
            if !self.players[i].hand().is_empty() {
                assert(self.hands()[i as int] == self.players@[i as int].hand_of());
                return false;
            }
            i += 1;
        }
        true
    }

    /// Starts a round of turns: the first player's turn, nobody asking again.
    pub fn start_pass(&mut self)
        ensures
            final(self).current() == 0,
            !final(self).repeat(),
            final(self).hands() == old(self).hands(),
            final(self).books() == old(self).books(),
            final(self).names() == old(self).names(),
            final(self).informs() == old(self).informs(),
            final(self).deck_view() == old(self).deck_view(),
    {
        self.current_player = 0;
        self.current_player_repeat = false;
    }

    /// The turn of the current player, who asks player `asked_player` for the rank `picked`
    /// (or, for `None`, draws a card and asks for its rank).
    pub fn take_turn(&mut self, asked_player: usize, picked: Option<Rank>) -> (outcome:
        TurnOutcome)
        requires
            old(self).current() < old(self).hands().len(),
            asked_player < old(self).hands().len(),
        ensures
            ({
                let t = spec_turn(
                    old(self).hands(),
                    old(self).books(),
                    old(self).deck_view(),
                    old(self).current(),
                    asked_player as int,
                    picked,
                    old(self).repeat(),
                );
                &&& final(self).hands() == t.hands
                &&& final(self).books() == t.books
                &&& final(self).deck_view() == t.deck
                &&& final(self).current() == t.current
                &&& final(self).repeat() == t.repeat
                &&& match outcome {
                    TurnOutcome::NoCardsLeft { end_pass } => t.no_cards_left == Some(end_pass),
                    TurnOutcome::Asked { rank, drawn_to_ask, gathered, fished, ask_again } => {
                        &&& t.no_cards_left is None
                        &&& rank == t.rank
                        &&& drawn_to_ask == t.drawn_to_ask
                        &&& gathered@ == t.gathered
                        &&& fished == t.fished
                        &&& ask_again == t.repeat
                    },
                }
            }),
            table_cards(final(self).hands(), final(self).books(), final(self).deck_view())
                == table_cards(old(self).hands(), old(self).books(), old(self).deck_view()),
            final(self).names() == old(self).names(),
            final(self).informs() == old(self).informs(),
    {
        proof {
            turn_keeps_cards(
                self.hands(),
                self.books(),
                self.deck@,
                self.current(),
                asked_player as int,
                picked,
                self.repeat(),
            );
        }
        let c = self.current_player;
        let ghost h0 = self.hands();
        let ghost d0 = self.deck@;
        let mut drawn_to_ask: Option<Card> = None;
        let rank = match picked {
            Some(r) => r,
            None => {
                match self.deck.draw() {
                    Some(card) => {
                        let ghost old_players = self.players@;
                        self.players[c].hand_mut().stack(card);
                        proof {
                            lemma_players_update(old_players, c as int, self.players@[c as int]);
                            assert(self.players@ == old_players.update(c as int, self.players@[c as int]));
                        }
                        drawn_to_ask = Some(card);
                        card.rank
                    },
                    None => {
                        let end_pass = self.current_player_repeat;
                        if !end_pass {
                            let n = self.players.len();
                            assert(self.current_player < n);
                            self.current_player = self.current_player + 1;
                        }
                        return TurnOutcome::NoCardsLeft { end_pass };
                    },
                }
            },
        };
        let ghost h1 = self.hands();
        let ghost d1 = self.deck@;
        let is_rank = |card: &Card| -> (b: bool)
            ensures
                b == (card.rank == rank),
            { card.rank == rank };
        let ghost old_players = self.players@;
        let gathered = self.players[asked_player].hand_mut().remove(is_rank);
        proof {
            lemma_players_update(old_players, asked_player as int, self.players@[asked_player as int]);
            assert(self.players@ == old_players.update(asked_player as int, self.players@[asked_player as int]));
            let flags = choose|flags: Seq<bool>|
                #[trigger] answers(is_rank, h1[asked_player as int], flags) && gathered@ == select(
                    h1[asked_player as int],
                    flags,
                    true,
                ) && self.hands()[asked_player as int] == select(h1[asked_player as int], flags, false);
            lemma_rank_answers(is_rank, h1[asked_player as int], flags, rank);
        }
        let ghost h2 = self.hands();
        let fished: Option<Card>;
        let ask_again: bool;
        let report_gathered = copy_deck(&gathered);
        if gathered.len() == 0 {
            fished = self.deck.draw();
            if let Some(card) = fished {
                let ghost old_players = self.players@;
                self.players[c].hand_mut().stack(card);
                proof {
                    lemma_players_update(old_players, c as int, self.players@[c as int]);
                    assert(self.players@ == old_players.update(c as int, self.players@[c as int]));
                }
            }
            ask_again = false;
        } else {
            let ghost old_players = self.players@;
            self.players[c].hand_mut().stack_deck(gathered);
            proof {
                lemma_players_update(old_players, c as int, self.players@[c as int]);
                assert(self.players@ == old_players.update(c as int, self.players@[c as int]));
            }
            fished = None;
            ask_again = true;
        }
        self.current_player_repeat = ask_again;
        let ghost old_players = self.players@;
        self.players[c].hand_mut().sort();
        proof {
            lemma_players_update(old_players, c as int, self.players@[c as int]);
            assert(self.players@ == old_players.update(c as int, self.players@[c as int]));
        }
        let ghost old_players = self.players@;
        self.players[c].book();
        proof {
            lemma_players_update(old_players, c as int, self.players@[c as int]);
            assert(self.players@ == old_players.update(c as int, self.players@[c as int]));
        }
        let n = self.players.len();
        assert(c < n);
        if !ask_again {
            self.current_player = c + 1;
        }
        proof {
            let t = spec_turn(
                h0,
                old(self).books(),
                d0,
                c as int,
                asked_player as int,
                picked,
                old(self).repeat(),
            );
            assert(self.hands() =~= t.hands);
            assert(self.books() =~= t.books);
        }
        TurnOutcome::Asked { rank, drawn_to_ask, gathered: report_gathered, fished, ask_again }
    }
}

// ---------------------------------------------------------------------------
// The leaderboard
// ---------------------------------------------------------------------------
/// A leaderboard entry: a player's name and number of books.
pub open spec fn entry_of(p: &GoFishPlayer) -> (Seq<char>, nat) {
    (p.name_of(), p.books_of().len())
}

/// `entries` sorted (stably) with `x` added after every entry with at least as many books.
pub open spec fn insert_desc(entries: Seq<(Seq<char>, nat)>, x: (Seq<char>, nat)) -> Seq<
    (Seq<char>, nat),
>
    decreases entries.len(),
{
    if entries.len() == 0 {
        seq![x]
    } else if entries.last().1 >= x.1 {
        entries.push(x)
    } else {
        insert_desc(entries.drop_last(), x).push(entries.last())
    }
}

/// `entries` sorted by number of books, most first; entries with as many books keep their
/// order (a stable sort).
pub open spec fn sort_desc(entries: Seq<(Seq<char>, nat)>) -> Seq<(Seq<char>, nat)>
    decreases entries.len(),
{
    if entries.len() == 0 {
        entries
    } else {
        insert_desc(sort_desc(entries.drop_last()), entries.last())
    }
}

/// Whether entries are sorted by number of books, most first.
pub open spec fn books_descending(entries: Seq<(Seq<char>, nat)>) -> bool {
    forall|i: int, j: int| 0 <= i <= j < entries.len() ==> #[trigger] entries[i].1 >= #[trigger] entries[j].1
}

/// Inserting an entry into sorted entries keeps them sorted and adds the entry.
proof fn lemma_insert_desc(entries: Seq<(Seq<char>, nat)>, x: (Seq<char>, nat))
    requires
        books_descending(entries),
    ensures
        books_descending(insert_desc(entries, x)),
        insert_desc(entries, x).to_multiset() == entries.to_multiset().insert(x),
        insert_desc(entries, x).len() == entries.len() + 1,
        forall|i: int| 0 <= i < insert_desc(entries, x).len() ==> #[trigger] insert_desc(entries, x)[i].1
            >= x.1 || insert_desc(entries, x)[i] == x || exists|k: int| 0 <= k < entries.len() && entries[k] == insert_desc(entries, x)[i],
    decreases entries.len(),
{
    broadcast use vstd::seq_lib::group_to_multiset_ensures;
    broadcast use vstd::multiset::group_multiset_axioms;

    let r = insert_desc(entries, x);
    if entries.len() == 0 {
        assert(r =~= seq![x]);
        assert(seq![x] =~= Seq::<(Seq<char>, nat)>::empty().push(x));
    } else if entries.last().1 >= x.1 {
        assert(r == entries.push(x));
        assert forall|i: int, j: int| 0 <= i <= j < r.len() implies #[trigger] r[i].1 >= #[trigger] r[j].1 by {
            if j == r.len() - 1 {
                if i < j {
                    assert(entries[i].1 >= entries[entries.len() - 1].1);
                }
            }
        }
    } else {
        let d = entries.drop_last();
        let l = entries.last();
        assert forall|i: int, j: int| 0 <= i <= j < d.len() implies #[trigger] d[i].1 >= #[trigger] d[j].1 by {
            assert(d[i] == entries[i] && d[j] == entries[j]);
        }
        lemma_insert_desc(d, x);
        let m = insert_desc(d, x);
        assert(r == m.push(l));
        assert(entries =~= d.push(l));
        assert forall|i: int, j: int| 0 <= i <= j < r.len() implies #[trigger] r[i].1 >= #[trigger] r[j].1 by {
            if j == r.len() - 1 && i < j {
                assert(r[i] == m[i]);
                if m[i] == x {
                } else if m[i].1 >= x.1 {
                } else {
                    let k = choose|k: int| 0 <= k < d.len() && d[k] == m[i];
                    assert(d[k] == entries[k]);
                    assert(entries[k].1 >= entries[entries.len() - 1].1);
                }
            } else if j < r.len() - 1 {
                assert(r[i] == m[i] && r[j] == m[j]);
            }
        }
        assert forall|i: int| 0 <= i < r.len() implies #[trigger] r[i].1 >= x.1 || r[i] == x || exists|k: int|
            0 <= k < entries.len() && entries[k] == r[i] by {
            if i == r.len() - 1 {
                assert(entries[entries.len() - 1] == r[i]);
            } else {
                assert(r[i] == m[i]);
                if !(m[i].1 >= x.1 || m[i] == x) {
                    let k = choose|k: int| 0 <= k < d.len() && d[k] == m[i];
                    assert(entries[k] == d[k]);
                }
            }
        }
        assert(r.to_multiset() =~= entries.to_multiset().insert(x));
    }
}

/// The leaderboard's order: the entries sorted by number of books, most first, holding the
/// same entries as before, each as often.
pub proof fn leaderboard_sorts_by_books(entries: Seq<(Seq<char>, nat)>)
    ensures
        books_descending(sort_desc(entries)),
        sort_desc(entries).to_multiset() == entries.to_multiset(),
        sort_desc(entries).len() == entries.len(),
    decreases entries.len(),
{
    broadcast use vstd::seq_lib::group_to_multiset_ensures;

    if entries.len() > 0 {
        leaderboard_sorts_by_books(entries.drop_last());
        lemma_insert_desc(sort_desc(entries.drop_last()), entries.last());
        assert(entries =~= entries.drop_last().push(entries.last()));
    }
}

/// The place of each entry of a sorted leaderboard: 1 for the first, and one more each time the
/// number of books changes.
pub open spec fn places(entries: Seq<(Seq<char>, nat)>) -> Seq<nat>
    decreases entries.len(),
{
    if entries.len() == 0 {
        seq![]
    } else if entries.len() == 1 {
        seq![1]
    } else {
        let prev = places(entries.drop_last());
        if entries.last().1 != entries[entries.len() - 2].1 {
            prev.push(prev.last() + 1)
        } else {
            prev.push(prev.last())
        }
    }
}

/// The largest byte length of the entries' names (0 for none).
pub open spec fn longest_entry_name(entries: Seq<(Seq<char>, nat)>) -> usize
    decreases entries.len(),
{
    if entries.len() == 0 {
        0
    } else {
        let m = longest_entry_name(entries.drop_last());
        if byte_len(entries.last().0) > m {
            byte_len(entries.last().0)
        } else {
            m
        }
    }
}

/// A leaderboard line: `PLACE PLACE: "name" ..... books BOOKS`, the dots filling `width` (`None`
/// where the start of the line is wider than that).
pub open spec fn entry_line(place: nat, name: Seq<char>, books: nat, width: int) -> Option<Seq<char>> {
    let start = spec_uppercase_ascii(decimal(place) + ordinal_suffix(place)) + seq![
        ' ',
        'P',
        'L',
        'A',
        'C',
        'E',
        ':',
        ' ',
        '"',
    ] + name + seq!['"', ' '];
    let padding = width - byte_len(start);
    if padding < 0 {
        None
    } else {
        Some(start + repeated('.', padding) + seq![' '] + decimal(books) + seq![
            ' ',
            'B',
            'O',
            'O',
            'K',
            'S',
            '\n',
        ])
    }
}

/// The lines of the first `k` entries.
pub open spec fn entry_lines(entries: Seq<(Seq<char>, nat)>, width: int, k: int) -> Option<Seq<char>>
    decreases k,
{
    if k <= 0 {
        Some(seq![])
    } else {
        join_opt(
            entry_lines(entries, width, k - 1),
            entry_line(places(entries)[k - 1], entries[k - 1].0, entries[k - 1].1, width),
        )
    }
}

/// The text of a sorted leaderboard (`None` where it has no entry, or a line is too wide).
pub open spec fn spec_leaderboard_text(entries: Seq<(Seq<char>, nat)>) -> Option<Seq<char>> {
    let width = 19 + longest_entry_name(entries);
    if entries.len() == 0 || width > usize::MAX {
        None
    } else {
        entry_lines(entries, width, entries.len() as int)
    }
}

/// Once a line is missing, the lines of more entries are missing too.
pub proof fn lemma_entry_lines_none(entries: Seq<(Seq<char>, nat)>, width: int, i: int)
    requires
        0 <= i <= entries.len(),
        entry_lines(entries, width, i) is None,
    ensures
        entry_lines(entries, width, entries.len() as int) is None,
    decreases entries.len() - i,
{
    if i < entries.len() {
        lemma_entry_lines_none(entries, width, i + 1);
    }
}

/// The places of a prefix are a prefix of the places.
pub proof fn lemma_places_prefix(entries: Seq<(Seq<char>, nat)>, k: int)
    requires
        0 < k <= entries.len(),
    ensures
        places(entries).len() == entries.len(),
        places(entries.take(k)) == places(entries).take(k),
    decreases entries.len(),
{
    if k == entries.len() {
        assert(entries.take(k) =~= entries);
        lemma_places_len(entries);
        assert(places(entries).take(k) =~= places(entries));
    } else {
        lemma_places_prefix(entries.drop_last(), k);
        lemma_places_len(entries);
        assert(entries.drop_last().take(k) =~= entries.take(k));
        lemma_places_len(entries.drop_last());
        assert(places(entries).take(k) =~= places(entries.drop_last()).take(k));
    }
}

/// The place of entry `k` follows from the place and books of the entry before.
pub proof fn lemma_next_place(
    entries: Seq<(Seq<char>, nat)>,
    k: int,
    place_before: nat,
    previous_score: Option<usize>,
    score: usize,
)
    requires
        0 <= k < entries.len(),
        entries[k].1 == score,
        k > 0 ==> place_before == places(entries)[k - 1] && previous_score is Some
            && previous_score->0 as nat == entries[k - 1].1,
        k == 0 ==> place_before == 0 && previous_score is None,
    ensures
        places(entries).len() == entries.len(),
        places(entries)[k] == (if previous_score != Some(score) {
            place_before + 1
        } else {
            place_before
        }),
{
    lemma_places_prefix(entries, k + 1);
    let t = entries.take(k + 1);
    assert(t.drop_last() =~= entries.take(k));
    assert(t.last() == entries[k]);
    if k > 0 {
        lemma_places_prefix(entries, k);
        assert(t[k - 1] == entries[k - 1]);
        assert(places(t.drop_last()).last() == places(entries)[k - 1]);
    }
    assert(places(t)[k] == places(entries)[k]);
}

/// There is one place per entry.
pub proof fn lemma_places_len(entries: Seq<(Seq<char>, nat)>)
    ensures
        places(entries).len() == entries.len(),
    decreases entries.len(),
{
    if entries.len() > 1 {
        lemma_places_len(entries.drop_last());
    }
}

/// The players of a finished game of Go Fish, most books first.
pub struct Leaderboard<'a> {
    players: Vec<&'a GoFishPlayer>,
}

impl<'a> Leaderboard<'a> {
    /// The entries of the leaderboard, in order.
    pub closed spec fn entries(self) -> Seq<(Seq<char>, nat)> {
        self.players@.map_values(|p: &GoFishPlayer| entry_of(p))
    }

    /// The leaderboard of `players`: sorted by number of books, most first; players with as many
    /// books keep their order.
    #[verifier::rlimit(30)]
    pub fn from_players(players: &'a [GoFishPlayer]) -> (board: Leaderboard<'a>)
        ensures
            board.entries() == sort_desc(players@.map_values(|p: GoFishPlayer| entry_of(&p))),
    {
        let ghost all = players@.map_values(|p: GoFishPlayer| entry_of(&p));
        let mut sorted: Vec<&'a GoFishPlayer> = Vec::new();
        let mut i: usize = 0;
        while i < players.len()
            invariant
                i <= players@.len(),
                all == players@.map_values(|p: GoFishPlayer| entry_of(&p)),
                sorted@.map_values(|p: &GoFishPlayer| entry_of(p)) == sort_desc(all.take(i as int)),
            decreases players@.len() - i,
        {
            let x = &players[i];
            let score = x.books().len();
            let ghost sv = sorted@.map_values(|p: &GoFishPlayer| entry_of(p));
            let ghost xe = entry_of(x);
            assert(xe.1 == score);
            let mut pos = sorted.len();
            assert(sv.take(pos as int) =~= sv);
            assert(sv.skip(pos as int) =~= Seq::<(Seq<char>, nat)>::empty());
            assert(insert_desc(sv, xe) =~= insert_desc(sv.take(pos as int), xe) + sv.skip(pos as int));
            while pos > 0 && sorted[pos - 1].books().len() < score
                invariant
                    pos <= sorted@.len(),
                    sv == sorted@.map_values(|p: &GoFishPlayer| entry_of(p)),
                    xe.1 == score,
                    insert_desc(sv, xe) == insert_desc(sv.take(pos as int), xe) + sv.skip(pos as int),
                decreases pos,
            {
                proof {
                    let t = sv.take(pos as int);
                    assert(t.drop_last() =~= sv.take(pos - 1));
                    assert(t.last() == sv[pos - 1]);
                    assert(sv[pos - 1].1 == sorted@[pos - 1].books_of().len());
                    assert(sv.skip(pos - 1) =~= seq![sv[pos - 1]] + sv.skip(pos as int));
                    assert(insert_desc(sv.take(pos - 1), xe).push(sv[pos - 1]) + sv.skip(pos as int)
                        =~= insert_desc(sv.take(pos - 1), xe) + sv.skip(pos - 1));
                }
                pos -= 1;
            }
            proof {
                let t = sv.take(pos as int);
                if pos > 0 {
                    assert(sv[pos - 1].1 == sorted@[pos - 1].books_of().len());
                    assert(t.last() == sv[pos - 1]);
                }
                assert(insert_desc(t, xe) =~= t.push(xe));
            }
            sorted.insert(pos, x);
            proof {
                assert(all.take(i + 1).drop_last() =~= all.take(i as int));
                assert(all.take(i + 1).last() == xe);
                assert(sorted@.map_values(|p: &GoFishPlayer| entry_of(p)) =~= sv.take(pos as int).push(xe)
                    + sv.skip(pos as int));
            }
            i += 1;
        }
        assert(all.take(players@.len() as int) =~= all);
        Leaderboard { players: sorted }
    }

    /// The leaderboard line of `name` with `books` books at `place`, filling `width`.
    fn entry_text(place: usize, name: &str, books: usize, width: usize) -> (line: Option<String>)
        ensures
            match line {
                Some(l) => entry_line(place as nat, name@, books as nat, width as int) == Some(l@),
                None => entry_line(place as nat, name@, books as nat, width as int) is None,
            },
    {
        let ordinal = ordinal_string(place);
        let mut entry = uppercase_ascii(ordinal.as_str());
        let place_word = " PLACE: \"";
        let quote_space = "\" ";
        proof {
            reveal_strlit(" PLACE: \"");
            reveal_strlit("\" ");
        }
        let ghost upper = entry@;
        push_str(&mut entry, place_word);
        push_str(&mut entry, name);
        push_str(&mut entry, quote_space);
        let ghost start = spec_uppercase_ascii(decimal(place as nat) + ordinal_suffix(place as nat)) + seq![
            ' ',
            'P',
            'L',
            'A',
            'C',
            'E',
            ':',
            ' ',
            '"',
        ] + name@ + seq!['"', ' '];
        assert(place_word@ == seq![' ', 'P', 'L', 'A', 'C', 'E', ':', ' ', '"']);
        assert(quote_space@ == seq!['"', ' ']);
        assert(entry@ =~= start);
        let entry_length = entry.as_str().len();
        if entry_length > width {
            return None;
        }
        let amount_of_padding = width - entry_length;
        let dots = repeat_char('.', amount_of_padding);
        push_str(&mut entry, dots.as_str());
        let space = " ";
        let books_word = " BOOKS\n";
        proof {
            reveal_strlit(" ");
            reveal_strlit(" BOOKS\n");
        }
        push_str(&mut entry, space);
        let score = decimal_string(books);
        push_str(&mut entry, score.as_str());
        push_str(&mut entry, books_word);
        assert(entry@ =~= entry_line(place as nat, name@, books as nat, width as int)->0);
        Some(entry)
    }

    /// The text of the leaderboard: a line per player with their place, name and number of
    /// books; players with as many books share a place. `None` where there is no player or a
    /// line would be too wide.
    #[verifier::rlimit(40)]
    pub fn render(&self) -> (text: Option<String>)
        ensures
            match text {
                Some(t) => spec_leaderboard_text(self.entries()) == Some(t@),
                None => spec_leaderboard_text(self.entries()) is None,
            },
    {
        let ghost entries = self.entries();
        let n = self.players.len();
        if n == 0 {
            return None;
        }
        let mut longest: usize = 0;
        let mut i: usize = 0;
        while i < n
            invariant
                i <= n,
                n == entries.len(),
                entries == self.entries(),
                longest == longest_entry_name(entries.take(i as int)),
            decreases n - i,
        {
            proof {
                assert(entries.take(i + 1).drop_last() =~= entries.take(i as int));
                assert(entries.take(i + 1).last() == entries[i as int]);
            }
            let length = self.players[i].name().len();
            if length > longest {
                longest = length;
            }
            i += 1;
        }
        assert(entries.take(n as int) =~= entries);
        if longest > usize::MAX - 19 {
            return None;
        }
        let width = 19 + longest;
        proof {
            lemma_places_len(entries);
        }
        let mut text = String::new();
        let mut place: usize = 0;
        let mut previous_score: Option<usize> = None;
        let mut k: usize = 0;
        while k < n
            invariant
                k <= n,
                n == entries.len(),
                entries == self.entries(),
                places(entries).len() == n,
                width == 19 + longest_entry_name(entries),
                place <= k,
                k > 0 ==> place == places(entries)[k - 1],
                k > 0 ==> previous_score is Some && previous_score->0 as nat == entries[k - 1].1,
                k == 0 ==> place == 0 && previous_score is None,
                entry_lines(entries, width as int, k as int) == Some(text@),
            decreases n - k,
        {
            let player = self.players[k];
            let score = player.books().len();
            assert(entries[k as int] == entry_of(player));
            let old_place = place;
            if previous_score != Some(score) {
                place += 1;
            }
            proof {
                lemma_next_place(entries, k as int, old_place as nat, previous_score, score);
                assert(player.name_of() == entries[k as int].0);
            }
            match Self::entry_text(place, player.name(), score, width) {
                Some(line) => {
                    push_str(&mut text, line.as_str());
                },
                None => {
                    proof {
                        lemma_entry_lines_none(entries, width as int, k + 1);
                    }
                    return None;
                },
            }
            previous_score = Some(score);
            k += 1;
        }
        Some(text)
    }
}

} // verus!
