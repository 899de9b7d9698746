use go_fish::card::{Card, Rank, Suit};
use go_fish::deck::{Deck, DeckIter};

fn card(rank: Rank, suit: Suit) -> Card {
    Card::new(rank, suit)
}

fn cards_of(deck: &Deck) -> Vec<Card> {
    let mut all = Vec::new();
    for i in 0..deck.len() {
        all.push(deck.card_at_index(i));
    }
    all
}

fn all_cards() -> Vec<Card> {
    let mut all = Vec::new();
    for suit in Suit::suits() {
        for rank in Rank::ranks() {
            all.push(Card::new(rank, suit));
        }
    }
    all
}

#[test]
fn empty_deck_has_no_cards() {
    let mut deck = Deck::empty();
    assert_eq!(deck.len(), 0);
    assert!(deck.is_empty());
    assert_eq!(deck.draw(), None);
}

#[test]
fn stack_puts_card_on_top_and_draw_takes_it_back() {
    let mut deck = Deck::from_cards(vec![card(Rank::Two, Suit::Clubs), card(Rank::Five, Suit::Hearts)]);
    let before = cards_of(&deck);
    deck.stack(card(Rank::Ace, Suit::Spades));
    assert_eq!(deck.len(), 3);
    assert_eq!(deck.card_at_index(2), card(Rank::Ace, Suit::Spades));
    assert_eq!(deck.draw(), Some(card(Rank::Ace, Suit::Spades)));
    assert_eq!(cards_of(&deck), before);
}

#[test]
fn stack_under_puts_card_at_bottom() {
    let mut deck = Deck::from_cards(vec![card(Rank::Two, Suit::Clubs)]);
    deck.stack_under(card(Rank::King, Suit::Diamonds));
    assert_eq!(cards_of(&deck), vec![card(Rank::King, Suit::Diamonds), card(Rank::Two, Suit::Clubs)]);
}

#[test]
fn stack_deck_keeps_both_orders() {
    let mut deck = Deck::from_cards(vec![card(Rank::Two, Suit::Clubs), card(Rank::Three, Suit::Clubs)]);
    let other = Deck::from_cards(vec![card(Rank::Four, Suit::Spades), card(Rank::Five, Suit::Spades)]);
    deck.stack_deck(other);
    assert_eq!(
        cards_of(&deck),
        vec![
            card(Rank::Two, Suit::Clubs),
            card(Rank::Three, Suit::Clubs),
            card(Rank::Four, Suit::Spades),
            card(Rank::Five, Suit::Spades),
        ]
    );
}

#[test]
fn stack_deck_under_cuts_other_deck_underneath() {
    let mut deck = Deck::from_cards(vec![card(Rank::Two, Suit::Clubs), card(Rank::Three, Suit::Clubs)]);
    let other = Deck::from_cards(vec![card(Rank::Four, Suit::Spades), card(Rank::Five, Suit::Spades)]);
    deck.stack_deck_under(other);
    assert_eq!(
        cards_of(&deck),
        vec![
            card(Rank::Four, Suit::Spades),
            card(Rank::Five, Suit::Spades),
            card(Rank::Two, Suit::Clubs),
            card(Rank::Three, Suit::Clubs),
        ]
    );
}

#[test]
fn shuffled_deck_holds_each_card_once() {
    let deck = Deck::shuffled_52_card();
    assert_eq!(deck.len(), 52);
    let cards = cards_of(&deck);
    for c in all_cards() {
        assert_eq!(cards.iter().filter(|x| **x == c).count(), 1);
    }
}

#[test]
fn shuffle_keeps_the_cards() {
    let mut deck = Deck::from_cards(all_cards());
    deck.shuffle();
    let mut cards = cards_of(&deck);
    let mut expected = all_cards();
    cards.sort();
    expected.sort();
    assert_eq!(cards, expected);
}

#[test]
fn sort_orders_by_rank_keeping_order_within_rank() {
    let mut deck = Deck::from_cards(vec![
        card(Rank::King, Suit::Hearts),
        card(Rank::Two, Suit::Spades),
        card(Rank::King, Suit::Clubs),
        card(Rank::Ace, Suit::Diamonds),
        card(Rank::Two, Suit::Hearts),
    ]);
    deck.sort();
    assert_eq!(
        cards_of(&deck),
        vec![
            card(Rank::Two, Suit::Spades),
            card(Rank::Two, Suit::Hearts),
            card(Rank::King, Suit::Hearts),
            card(Rank::King, Suit::Clubs),
            card(Rank::Ace, Suit::Diamonds),
        ]
    );
}

#[test]
fn sort_of_full_deck_is_in_rank_order() {
    let mut deck = Deck::shuffled_52_card();
    deck.sort();
    let cards = cards_of(&deck);
    assert_eq!(cards.len(), 52);
    for i in 1..cards.len() {
        assert!(cards[i - 1].rank.index() <= cards[i].rank.index());
    }
}

#[test]
fn remove_takes_matching_cards_and_keeps_others() {
    let mut deck = Deck::from_cards(vec![
        card(Rank::Seven, Suit::Hearts),
        card(Rank::Two, Suit::Spades),
        card(Rank::Seven, Suit::Clubs),
        card(Rank::Nine, Suit::Diamonds),
    ]);
    let removed = deck.remove(|c: &Card| c.rank == Rank::Seven);
    assert_eq!(cards_of(&removed), vec![card(Rank::Seven, Suit::Hearts), card(Rank::Seven, Suit::Clubs)]);
    assert_eq!(cards_of(&deck), vec![card(Rank::Two, Suit::Spades), card(Rank::Nine, Suit::Diamonds)]);
}

#[test]
fn cards_copies_matching_cards_and_leaves_deck() {
    let deck = Deck::from_cards(vec![
        card(Rank::Seven, Suit::Hearts),
        card(Rank::Two, Suit::Spades),
        card(Rank::Seven, Suit::Clubs),
    ]);
    let sevens = deck.cards(|c: &Card| c.rank == Rank::Seven);
    assert_eq!(cards_of(&sevens), vec![card(Rank::Seven, Suit::Hearts), card(Rank::Seven, Suit::Clubs)]);
    assert_eq!(deck.len(), 3);
    let none = deck.cards(|c: &Card| c.rank == Rank::Ace);
    assert_eq!(none.len(), 0);
}

#[test]
fn from_decks_lays_decks_one_on_another() {
    let a = Deck::from_cards(vec![card(Rank::Two, Suit::Clubs)]);
    let b = Deck::empty();
    let c = Deck::from_cards(vec![card(Rank::Three, Suit::Hearts), card(Rank::Four, Suit::Hearts)]);
    let all = Deck::from_decks(&[a, b, c]);
    assert_eq!(
        cards_of(&all),
        vec![card(Rank::Two, Suit::Clubs), card(Rank::Three, Suit::Hearts), card(Rank::Four, Suit::Hearts)]
    );
}

#[test]
fn from_slice_keeps_order() {
    let cards = [card(Rank::Ten, Suit::Clubs), card(Rank::Jack, Suit::Clubs)];
    let deck = Deck::from_slice(&cards);
    assert_eq!(cards_of(&deck), cards.to_vec());
}

#[test]
fn iterator_goes_from_bottom_to_top() {
    let deck = Deck::from_cards(vec![card(Rank::Two, Suit::Clubs), card(Rank::Queen, Suit::Spades)]);
    let mut it = DeckIter::new(&deck);
    assert_eq!(it.next(), Some(card(Rank::Two, Suit::Clubs)));
    assert_eq!(it.next(), Some(card(Rank::Queen, Suit::Spades)));
    assert_eq!(it.next(), None);
    assert_eq!(it.next(), None);
}

#[test]
fn suits_and_ranks_come_in_order() {
    assert_eq!(Suit::suits(), vec![Suit::Clubs, Suit::Spades, Suit::Hearts, Suit::Diamonds]);
    let ranks = Rank::ranks();
    assert_eq!(ranks.len(), 13);
    assert_eq!(ranks[0], Rank::Two);
    assert_eq!(ranks[8], Rank::Ten);
    assert_eq!(ranks[12], Rank::Ace);
    for (i, r) in ranks.iter().enumerate() {
        assert_eq!(r.index(), i);
    }
    assert_eq!(Suit::Hearts.index(), 2);
}

#[test]
fn ranks_and_suits_print_as_symbols() {
    assert_eq!(Rank::Ten.to_string(), "10");
    assert_eq!(Rank::Jack.to_string(), "J");
    assert_eq!(Rank::Ace.to_string(), "A");
    assert_eq!(Rank::Two.to_string(), "2");
    assert_eq!(Suit::Clubs.to_string(), "\u{2663}");
    assert_eq!(Suit::Spades.to_string(), "\u{2660}");
    assert_eq!(Suit::Hearts.to_string(), "\u{2665}");
    assert_eq!(Suit::Diamonds.to_string(), "\u{2666}");
}
