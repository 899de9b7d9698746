use go_fish::card::{Card, CardSet, PrintCard, Rank, Suit};
use go_fish::deck::{Deck, PrintDeck};
use go_fish::input::{is_yes, parse_count};
use go_fish::text::{decimal_string, keep_n_columns, lineify, string_side_by_side, uppercase_ascii};

/// A small card set: the back is two lines of `#`, each face is the rank over the suit.
fn card_set_text() -> String {
    let mut pieces = vec![String::from("##\n##")];
    for rank in ["2", "3", "4", "5", "6", "7", "8", "9", "10", "J", "Q", "K", "A"] {
        pieces.push(format!("{}\nS.", rank));
    }
    pieces.join("\r\n\r\n")
}

fn card_set() -> CardSet {
    CardSet::parse(&card_set_text()).expect("fourteen textures")
}

#[test]
fn card_set_replaces_suit_marks() {
    let set = card_set();
    assert_eq!(set.get_back(), "##\n##");
    assert_eq!(set.get_card(Rank::Ten, Suit::Hearts), "10\n\u{2665}.");
    assert_eq!(set.get_card(Rank::Two, Suit::Clubs), "2\n\u{2663}.");
    assert_eq!(set.get_card(Rank::Ace, Suit::Diamonds), "A\n\u{2666}.");
}

#[test]
fn card_set_needs_fourteen_textures() {
    assert!(CardSet::parse("##").is_none());
    let mut text = card_set_text();
    text.push_str("\r\n\r\nextra");
    assert!(CardSet::parse(&text).is_none());
    // separated by plain newlines only, the text is one texture
    assert!(CardSet::parse(&card_set_text().replace("\r\n\r\n", "\n\n")).is_none());
}

#[test]
fn print_card_shows_face_or_back() {
    let set = card_set();
    let c = Card::new(Rank::Queen, Suit::Spades);
    assert_eq!(PrintCard::from(&c).render(&set), "Q\n\u{2660}.");
    assert_eq!(c.as_printable().show(false).render(&set), "##\n##");
}

#[test]
fn print_deck_lays_cards_side_by_side() {
    let set = card_set();
    let deck = Deck::from_cards(vec![Card::new(Rank::Two, Suit::Spades), Card::new(Rank::Three, Suit::Hearts)]);
    // the card behind shows only its first column
    assert_eq!(deck.as_printable().render(&set), "23\n\u{2660}\u{2665}.\n");
    // peeking one more column
    assert_eq!(deck.as_printable().peek(1).render(&set), "23\n\u{2660}.\u{2665}.\n");
    // only the top card
    assert_eq!(deck.as_printable().only_show(1).render(&set), "3\n\u{2665}.\n");
    // nothing
    assert_eq!(deck.as_printable().only_show(0).render(&set), "");
    // more than the deck holds shows all
    assert_eq!(deck.as_printable().only_show(9).render(&set), deck.as_printable().render(&set));
    // backs
    assert_eq!(deck.as_printable().hide_faces().render(&set), "###\n###\n");
    assert_eq!(PrintDeck::from(&Deck::empty()).render(&set), "");
}

#[test]
fn lineify_splits_lines() {
    assert_eq!(lineify("ab\ncd\r\nef"), vec!["ab", "cd", "ef"]);
    assert_eq!(lineify("ab\n"), vec!["ab"]);
    assert_eq!(lineify(""), Vec::<String>::new());
}

#[test]
fn keep_n_columns_cuts_each_line() {
    assert_eq!(keep_n_columns("abcd\nefgh", 1), "ab\nef\n");
    assert_eq!(keep_n_columns("abcd\nefgh", 0), "a\ne\n");
    // wider than the lines: the lines stay whole
    assert_eq!(keep_n_columns("ab\nc", 10), "ab\nc\n");
    assert_eq!(keep_n_columns("ab\nc", 10), keep_n_columns("ab\nc", 100));
}

#[test]
fn side_by_side_joins_lines_with_separator() {
    let items = vec![String::from("a\nb"), String::from("cc\ndd\nee")];
    // the shortest item decides how many lines come out
    assert_eq!(string_side_by_side(&items, " | "), "a | cc\nb | dd\n");
}

#[test]
fn side_by_side_skips_empty_items() {
    let items = vec![String::from("a\nb"), String::new(), String::from("c\nd")];
    assert_eq!(string_side_by_side(&items, "-"), "a-c\nb-d\n");
    let without = vec![String::from("a\nb"), String::from("c\nd")];
    assert_eq!(string_side_by_side(&items, "-"), string_side_by_side(&without, "-"));
    assert_eq!(string_side_by_side(&[String::new()], "-"), "");
    assert_eq!(string_side_by_side(&[], "-"), "");
}

#[test]
fn decimal_and_uppercase() {
    assert_eq!(decimal_string(0), "0");
    assert_eq!(decimal_string(1203), "1203");
    assert_eq!(uppercase_ascii("1st place é"), "1ST PLACE é");
}

#[test]
fn yes_answers() {
    assert!(is_yes("y"));
    assert!(is_yes("Y"));
    assert!(is_yes("yes"));
    assert!(is_yes("YeS"));
    assert!(!is_yes(""));
    assert!(!is_yes("no"));
    assert!(!is_yes("yess"));
    assert!(!is_yes("ye"));
}

#[test]
fn counts_parse_like_usize() {
    assert_eq!(parse_count("7"), Some(7));
    assert_eq!(parse_count("+12"), Some(12));
    assert_eq!(parse_count("007"), Some(7));
    assert_eq!(parse_count(""), None);
    assert_eq!(parse_count("+"), None);
    assert_eq!(parse_count("-1"), None);
    assert_eq!(parse_count("1 2"), None);
    assert_eq!(parse_count("abc"), None);
    assert_eq!(parse_count(&usize::MAX.to_string()), Some(usize::MAX));
    assert_eq!(parse_count("99999999999999999999999999"), None);
    for s in ["0", "42", "+5", "x", "", "18446744073709551616"] {
        assert_eq!(parse_count(s), s.parse::<usize>().ok());
    }
}
