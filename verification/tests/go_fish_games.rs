use go_fish::card::{Card, CardSet, Rank, Suit};
use go_fish::deck::Deck;
use go_fish::go_fish::game::{GoFish, Leaderboard, PlayerInfo, TurnOutcome};
use go_fish::go_fish::players::human_player::HumanPlayer;
use go_fish::go_fish::players::random_bot::RandomBot;
use go_fish::go_fish::players::GoFishPlayer;

fn c(rank: Rank, suit: Suit) -> Card {
    Card::new(rank, suit)
}

fn cards_of(deck: &Deck) -> Vec<Card> {
    (0..deck.len()).map(|i| deck.card_at_index(i)).collect()
}

fn human(name: &str, cards: Vec<Card>) -> GoFishPlayer {
    let mut p = GoFishPlayer::Human(HumanPlayer::new(name));
    for card in cards {
        p.hand_mut().stack(card);
    }
    p
}

fn bot(name: &str, cards: Vec<Card>) -> GoFishPlayer {
    let mut p = GoFishPlayer::RandomBot(RandomBot::new(name));
    for card in cards {
        p.hand_mut().stack(card);
    }
    p
}

fn every_card(game: &GoFish) -> Vec<Card> {
    let mut all = Vec::new();
    for p in 0..game.player_count() {
        all.extend(cards_of(game.player(p).hand()));
        for book in game.player(p).books() {
            all.extend(cards_of(book));
        }
    }
    all.sort();
    all
}

fn card_set() -> CardSet {
    let mut pieces = vec![String::from("##\n##")];
    for rank in ["2", "3", "4", "5", "6", "7", "8", "9", "10", "J", "Q", "K", "A"] {
        pieces.push(format!("{}\nS.", rank));
    }
    CardSet::parse(&pieces.join("\r\n\r\n")).expect("fourteen textures")
}

#[test]
fn book_moves_four_of_a_kind() {
    let mut p = human(
        "Ann",
        vec![
            c(Rank::Seven, Suit::Clubs),
            c(Rank::Two, Suit::Hearts),
            c(Rank::Seven, Suit::Spades),
            c(Rank::Seven, Suit::Hearts),
            c(Rank::Seven, Suit::Diamonds),
            c(Rank::Two, Suit::Clubs),
        ],
    );
    p.book();
    assert_eq!(cards_of(p.hand()), vec![c(Rank::Two, Suit::Hearts), c(Rank::Two, Suit::Clubs)]);
    assert_eq!(p.books().len(), 1);
    assert_eq!(
        cards_of(&p.books()[0]),
        vec![
            c(Rank::Seven, Suit::Clubs),
            c(Rank::Seven, Suit::Spades),
            c(Rank::Seven, Suit::Hearts),
            c(Rank::Seven, Suit::Diamonds),
        ]
    );
    // three of a kind is no book
    let mut q = bot("Bot", vec![c(Rank::Ace, Suit::Clubs), c(Rank::Ace, Suit::Hearts), c(Rank::Ace, Suit::Spades)]);
    q.book();
    assert_eq!(q.hand().len(), 3);
    assert_eq!(q.books().len(), 0);
}

#[test]
fn new_game_has_full_deck_and_deal_shares_it() {
    let mut game = GoFish::new(vec![human("Ann", vec![]), bot("Bot", vec![])]);
    assert_eq!(game.amount_of_cards_in_deck(), 52);
    assert_eq!(game.deal_options(), (7, 26));
    game.deal(7);
    assert_eq!(game.amount_of_cards_in_deck(), 38);
    for p in 0..2 {
        let hand = cards_of(game.player(p).hand());
        assert_eq!(hand.len(), 7);
        for i in 1..hand.len() {
            assert!(hand[i - 1].rank.index() <= hand[i].rank.index());
        }
    }
}

#[test]
fn deal_options_for_many_players() {
    let game = GoFish::new(vec![bot("A", vec![]), bot("B", vec![]), bot("C", vec![]), bot("D", vec![]), bot("E", vec![])]);
    assert_eq!(game.deal_options(), (5, 10));
}

#[test]
fn asking_for_a_held_rank_gathers_cards_and_asks_again() {
    let mut game = GoFish::new(vec![
        human("Ann", vec![c(Rank::Five, Suit::Clubs), c(Rank::Nine, Suit::Clubs)]),
        bot("Bot", vec![c(Rank::Five, Suit::Hearts), c(Rank::Two, Suit::Hearts), c(Rank::Five, Suit::Spades)]),
    ]);
    let deck_before = game.amount_of_cards_in_deck();
    let outcome = game.take_turn(1, Some(Rank::Five));
    match outcome {
        TurnOutcome::Asked { rank, drawn_to_ask, gathered, fished, ask_again } => {
            assert_eq!(rank, Rank::Five);
            assert_eq!(drawn_to_ask, None);
            assert_eq!(cards_of(&gathered), vec![c(Rank::Five, Suit::Hearts), c(Rank::Five, Suit::Spades)]);
            assert_eq!(fished, None);
            assert!(ask_again);
        },
        TurnOutcome::NoCardsLeft { .. } => panic!("the player asked"),
    }
    assert_eq!(game.current_player(), 0);
    assert_eq!(game.amount_of_cards_in_deck(), deck_before);
    // sorted by rank, the gathered cards after the held Five
    assert_eq!(
        cards_of(game.player(0).hand()),
        vec![
            c(Rank::Five, Suit::Clubs),
            c(Rank::Five, Suit::Hearts),
            c(Rank::Five, Suit::Spades),
            c(Rank::Nine, Suit::Clubs),
        ]
    );
    assert_eq!(cards_of(game.player(1).hand()), vec![c(Rank::Two, Suit::Hearts)]);
}

#[test]
fn asking_for_a_missing_rank_goes_fishing_and_passes_the_turn() {
    let mut game = GoFish::new(vec![
        human("Ann", vec![c(Rank::Five, Suit::Clubs)]),
        bot("Bot", vec![c(Rank::Two, Suit::Hearts)]),
    ]);
    let outcome = game.take_turn(1, Some(Rank::Five));
    match outcome {
        TurnOutcome::Asked { gathered, fished, ask_again, .. } => {
            assert_eq!(gathered.len(), 0);
            let fished = fished.expect("the deck had cards");
            assert!(cards_of(game.player(0).hand()).contains(&fished));
            assert!(!ask_again);
        },
        TurnOutcome::NoCardsLeft { .. } => panic!("the player asked"),
    }
    assert_eq!(game.current_player(), 1);
    assert_eq!(game.amount_of_cards_in_deck(), 51);
    assert_eq!(game.player(0).hand().len(), 2);
    assert_eq!(cards_of(game.player(1).hand()), vec![c(Rank::Two, Suit::Hearts)]);
}

#[test]
fn empty_hand_draws_a_card_to_ask_for() {
    let mut game = GoFish::new(vec![human("Ann", vec![]), bot("Bot", vec![])]);
    let outcome = game.take_turn(1, None);
    match outcome {
        TurnOutcome::Asked { rank, drawn_to_ask, gathered, fished, ask_again } => {
            let drawn = drawn_to_ask.expect("the deck had cards");
            assert_eq!(rank, drawn.rank);
            assert_eq!(gathered.len(), 0);
            assert!(fished.is_some());
            assert!(!ask_again);
        },
        TurnOutcome::NoCardsLeft { .. } => panic!("the deck had cards"),
    }
    assert_eq!(game.player(0).hand().len(), 2);
    assert_eq!(game.amount_of_cards_in_deck(), 50);
}

#[test]
fn turns_keep_every_card() {
    let mut game = GoFish::new(vec![human("Ann", vec![]), bot("Bot", vec![]), bot("Cy", vec![])]);
    game.deal(5);
    let n = game.player_count();
    for _ in 0..60 {
        if game.current_player() >= n {
            game.start_pass();
        }
        let current = game.current_player();
        let asked = (current + 1) % n;
        let hand = game.player(current).hand();
        let picked = if hand.len() > 0 { Some(hand.card_at_index(0).rank) } else { None };
        let _ = game.take_turn(asked, picked);
        let mut all = every_card(&game);
        assert_eq!(all.len() + game.amount_of_cards_in_deck(), 52);
        all.dedup();
        assert_eq!(all.len() + game.amount_of_cards_in_deck(), 52);
        for p in 0..n {
            for book in game.player(p).books() {
                assert_eq!(book.len(), 4);
                let r = book.card_at_index(0).rank;
                for i in 0..4 {
                    assert_eq!(book.card_at_index(i).rank, r);
                }
            }
        }
    }
}

#[test]
fn no_cards_left_ends_or_repeats() {
    let mut game = GoFish::new(vec![human("Ann", vec![]), bot("Bot", vec![])]);
    game.deal(26);
    assert_eq!(game.amount_of_cards_in_deck(), 0);
    game.start_pass();
    let outcome = game.take_turn(1, None);
    match outcome {
        TurnOutcome::NoCardsLeft { end_pass } => assert!(!end_pass),
        TurnOutcome::Asked { .. } => panic!("nothing to draw"),
    }
    // the turn passes to the next player
    assert_eq!(game.current_player(), 1);
    assert_eq!(game.player(0).hand().len(), 26);
    assert!(!game.is_over());
}

#[test]
fn other_players_and_public_information() {
    let game = GoFish::new(vec![
        human("Ann", vec![c(Rank::Two, Suit::Clubs)]),
        bot("Bot", vec![]),
        bot("Cy", vec![c(Rank::Ace, Suit::Clubs), c(Rank::Ace, Suit::Hearts)]),
    ]);
    assert_eq!(game.other_players(1), vec![(0, "Ann"), (2, "Cy")]);
    assert_eq!(game.other_players(0), vec![(1, "Bot"), (2, "Cy")]);
    let info = game.public_information();
    assert_eq!(info.deck_length, 52);
    assert_eq!(info.player_info.len(), 3);
    assert_eq!(info.player_info[2].name, "Cy");
    assert_eq!(info.player_info[2].amount_of_cards, 2);
    assert_eq!(info.player_info[2].amount_of_books, 0);
    let one = PlayerInfo::from(game.player(0));
    assert_eq!(one.name, "Ann");
    assert_eq!(one.amount_of_cards, 1);
    assert!(!game.all_hands_empty());
    let empty = GoFish::new(vec![bot("A", vec![]), bot("B", vec![])]);
    assert!(empty.all_hands_empty());
}

#[test]
fn leaderboard_sorts_by_books_and_shares_places() {
    let four = |r: Rank| {
        vec![c(r, Suit::Clubs), c(r, Suit::Spades), c(r, Suit::Hearts), c(r, Suit::Diamonds)]
    };
    let mut ann = human("Ann", four(Rank::Two));
    ann.book();
    let mut bob = bot("Bob", [four(Rank::Three), four(Rank::Four)].concat());
    bob.book();
    let mut cy = bot("Cy", four(Rank::Five));
    cy.book();
    let di = bot("Di", vec![]);
    let players = vec![ann, bob, cy, di];
    let board = Leaderboard::from_players(&players).render().expect("a board");
    let lines: Vec<&str> = board.lines().collect();
    // width 19 + 3
    assert_eq!(lines[0], "1ST PLACE: \"Bob\" ..... 2 BOOKS");
    assert_eq!(lines[1], "2ND PLACE: \"Ann\" ..... 1 BOOKS");
    assert_eq!(lines[2], "2ND PLACE: \"Cy\" ...... 1 BOOKS");
    assert_eq!(lines[3], "3RD PLACE: \"Di\" ...... 0 BOOKS");
    assert_eq!(lines.len(), 4);
    let game = GoFish::new(players);
    assert_eq!(game.leaderboard().render(), Some(board));
}

#[test]
fn leaderboard_uses_ordinal_suffixes() {
    let mut players = Vec::new();
    for i in 0..12 {
        let mut p = bot(&format!("P{:02}", i), vec![]);
        // give player i a distinct number of books: 11 - i
        let ranks = Rank::ranks();
        for r in 0..(11 - i) {
            for suit in Suit::suits() {
                p.hand_mut().stack(Card::new(ranks[r], suit));
            }
        }
        p.book();
        players.push(p);
    }
    let board = Leaderboard::from_players(&players).render().expect("a board");
    let lines: Vec<&str> = board.lines().collect();
    assert!(lines[0].starts_with("1ST PLACE: \"P00\""));
    assert!(lines[1].starts_with("2ND PLACE:"));
    assert!(lines[2].starts_with("3RD PLACE:"));
    assert!(lines[3].starts_with("4TH PLACE:"));
    assert!(lines[10].starts_with("11TH PLACE:"));
    assert!(lines[11].starts_with("12TH PLACE: \"P11\""));
    assert!(lines[11].ends_with(" 0 BOOKS"));
}

#[test]
fn books_render_in_rows_of_five() {
    let set = card_set();
    let mut p = human("Ann", vec![]);
    assert_eq!(p.render_books(&set), "");
    let ranks = Rank::ranks();
    for r in 0..6 {
        for suit in Suit::suits() {
            p.hand_mut().stack(Card::new(ranks[r], suit));
        }
    }
    p.book();
    assert_eq!(p.books().len(), 6);
    let text = p.render_books(&set);
    // two rows, each two lines high
    assert_eq!(text.lines().count(), 4);
    // a book shows the edge of three cards and the whole top card
    assert_eq!(text.lines().next().unwrap(), "2222 3333 4444 5555 6666");
    assert_eq!(text.lines().nth(2).unwrap(), "7777");
}

#[test]
fn human_names_a_rank_in_any_case() {
    let mut p = HumanPlayer::new("Ann");
    p.hand_mut().stack(c(Rank::Jack, Suit::Clubs));
    p.hand_mut().stack(c(Rank::Ten, Suit::Hearts));
    assert_eq!(p.rank_from_answer("j"), Some(Rank::Jack));
    assert_eq!(p.rank_from_answer("J"), Some(Rank::Jack));
    assert_eq!(p.rank_from_answer("10"), Some(Rank::Ten));
    assert_eq!(p.rank_from_answer("q"), None);
    assert_eq!(p.rank_from_answer("jack"), None);
    assert_eq!(p.rank_from_answer(""), None);
    p.hand_mut().stack(c(Rank::King, Suit::Spades));
    assert_eq!(p.rank_from_answer("k"), Some(Rank::King));
    // the Kelvin sign lower-cases to `k`
    assert_eq!(p.rank_from_answer("\u{212A}"), Some(Rank::King));
    assert_eq!("\u{212A}".to_lowercase(), "k");
}

#[test]
fn random_bot_picks_from_its_hand_and_asks_others() {
    let mut b = RandomBot::new("Bot");
    assert_eq!(b.pick(), None);
    b.hand_mut().stack(c(Rank::Four, Suit::Clubs));
    b.hand_mut().stack(c(Rank::Nine, Suit::Clubs));
    for _ in 0..20 {
        let r = b.pick().expect("a card");
        assert!(r == Rank::Four || r == Rank::Nine);
        let asked = b.ask(vec![(3, "Ann"), (5, "Cy")]);
        assert!(asked == 3 || asked == 5);
    }
    assert_eq!(b.ask(vec![(7, "Ann")]), 7);
}

#[test]
fn player_from_answer_counts_from_one() {
    let others = [(0, "Ann"), (2, "Cy"), (3, "Di")];
    assert_eq!(HumanPlayer::player_from_answer(&others, "1"), Some(0));
    assert_eq!(HumanPlayer::player_from_answer(&others, "3"), Some(3));
    assert_eq!(HumanPlayer::player_from_answer(&others, "+2"), Some(2));
    assert_eq!(HumanPlayer::player_from_answer(&others, "0"), None);
    assert_eq!(HumanPlayer::player_from_answer(&others, "4"), None);
    assert_eq!(HumanPlayer::player_from_answer(&others, "x"), None);
    // the only other player is asked whatever the answer
    assert_eq!(HumanPlayer::player_from_answer(&[(5, "Bob")], "9"), Some(5));
}

#[test]
fn game_is_over_when_deck_and_hands_are_empty() {
    let game = GoFish::new(vec![bot("A", vec![]), bot("B", vec![])]);
    assert!(game.all_hands_empty());
    assert!(!game.is_over());
}

#[test]
fn whole_game_ends_with_every_card_in_books() {
    let mut game = GoFish::new(vec![bot("A", vec![]), bot("B", vec![]), bot("C", vec![])]);
    game.deal(5);
    let n = game.player_count();
    let mut turns = 0;
    while !game.is_over() {
        game.start_pass();
        while game.current_player() < n {
            let current = game.current_player();
            let others: Vec<(usize, &str)> = game.other_players(current);
            let (asked, picked) = match game.player(current) {
                GoFishPlayer::RandomBot(b) => (b.ask(others), b.pick()),
                GoFishPlayer::Human(_) => panic!("bots only"),
            };
            match game.take_turn(asked, picked) {
                TurnOutcome::NoCardsLeft { end_pass } => {
                    if end_pass {
                        break;
                    }
                },
                TurnOutcome::Asked { .. } => {},
            }
            turns += 1;
            assert!(turns < 1_000_000);
        }
    }
    let mut books = 0;
    for p in 0..n {
        books += game.player(p).books().len();
    }
    assert_eq!(books, 13);
}
