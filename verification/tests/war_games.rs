use go_fish::card::{Card, Rank, Suit};
use go_fish::deck::Deck;
use go_fish::war::game::{Turn, War};
use go_fish::war::players::bot::WarBot;
use go_fish::war::players::human::HumanWarPlayer;
use go_fish::war::players::WarPlayer;

fn c(rank: Rank, suit: Suit) -> Card {
    Card::new(rank, suit)
}

fn bot(name: &str, cards: Vec<Card>) -> WarPlayer {
    let mut b = WarBot::new(name);
    b.hand = Deck::from_cards(cards);
    WarPlayer::Bot(b)
}

fn cards_of(deck: &Deck) -> Vec<Card> {
    (0..deck.len()).map(|i| deck.card_at_index(i)).collect()
}

fn sorted(mut v: Vec<Card>) -> Vec<Card> {
    v.sort();
    v
}

fn all_cards_in(war: &War) -> Vec<Card> {
    let mut all = Vec::new();
    for p in 0..war.player_count() {
        all.extend(cards_of(war.player(p).hand()));
    }
    sorted(all)
}

#[test]
fn determine_candidates_picks_highest_rank() {
    let comp = [
        (0, c(Rank::Five, Suit::Clubs)),
        (1, c(Rank::King, Suit::Spades)),
        (2, c(Rank::Two, Suit::Hearts)),
        (3, c(Rank::King, Suit::Diamonds)),
    ];
    assert_eq!(War::determine_candidates(&comp), vec![1, 3]);
    assert_eq!(War::determine_candidates(&comp[..3]), vec![1]);
    assert_eq!(War::determine_candidates(&[]), Vec::<usize>::new());
    assert_eq!(War::determine_candidates(&[(4, c(Rank::Ace, Suit::Clubs))]), vec![4]);
}

#[test]
fn list_joins_names() {
    assert_eq!(War::list(&["Ann"]), "Ann");
    assert_eq!(War::list(&["Ann", "Bob"]), "Ann and Bob");
    assert_eq!(War::list(&["Ann", "Bob", "Cy"]), "Ann, Bob, and Cy");
}

#[test]
fn pluralize_adds_s_unless_one() {
    assert_eq!(War::pluralize("card", 1), "card");
    assert_eq!(War::pluralize("card", 0), "cards");
    assert_eq!(War::pluralize("card", 5), "cards");
}

#[test]
fn dealing_hands_out_whole_decks_round_robin() {
    let players = vec![bot("A", vec![]), bot("B", vec![]), bot("C", vec![])];
    let mut war = War::new(players, 3);
    war.deal(1);
    assert_eq!(war.player(0).hand().len(), 18);
    assert_eq!(war.player(1).hand().len(), 17);
    assert_eq!(war.player(2).hand().len(), 17);
    let mut expected = Vec::new();
    for suit in Suit::suits() {
        for rank in Rank::ranks() {
            expected.push(Card::new(rank, suit));
        }
    }
    assert_eq!(all_cards_in(&war), sorted(expected));
    war.deal(1);
    assert_eq!(war.player(0).hand().len(), 36);
    assert_eq!(war.player(2).hand().len(), 34);
}

#[test]
fn round_without_war_goes_to_highest_card() {
    let players = vec![
        bot("Ann", vec![c(Rank::Three, Suit::Clubs), c(Rank::King, Suit::Spades)]),
        bot("Bob", vec![c(Rank::Two, Suit::Hearts)]),
    ];
    let mut war = War::new(players, 3);
    assert!(!war.is_over());
    let before = all_cards_in(&war);
    let report = war.play_round().expect("a round can be played");
    assert_eq!(
        report.turns,
        vec![
            Turn { player: 0, hand_length: 2, card: c(Rank::King, Suit::Spades) },
            Turn { player: 1, hand_length: 1, card: c(Rank::Two, Suit::Hearts) },
        ]
    );
    assert!(report.battles.is_empty());
    assert_eq!(report.winner, Some(0));
    assert_eq!(cards_of(&report.gained), vec![c(Rank::King, Suit::Spades), c(Rank::Two, Suit::Hearts)]);
    assert_eq!(report.eliminated, vec![1]);
    // the gained cards go under the winner's hand
    let hand = cards_of(war.player(0).hand());
    assert_eq!(hand.len(), 3);
    assert_eq!(hand[2], c(Rank::Three, Suit::Clubs));
    assert_eq!(sorted(hand[..2].to_vec()), sorted(vec![c(Rank::King, Suit::Spades), c(Rank::Two, Suit::Hearts)]));
    assert_eq!(war.player(1).hand().len(), 0);
    assert_eq!(all_cards_in(&war), before);
    assert_eq!(war.active_players(), vec![0]);
    assert!(war.is_over());
    // the game is over: no round can be played with one player left holding cards and the
    // other out, but the one left still turns a card over alone
    let last = war.play_round().expect("the remaining player still plays");
    assert_eq!(last.winner, Some(0));
}

#[test]
fn tie_wages_war() {
    // Ann's cards from bottom to top: Ten, Four, Five, Six, King; Bob's: Jack, Two, Three, Four, King
    let players = vec![
        bot(
            "Ann",
            vec![
                c(Rank::Ten, Suit::Clubs),
                c(Rank::Four, Suit::Clubs),
                c(Rank::Five, Suit::Clubs),
                c(Rank::Six, Suit::Clubs),
                c(Rank::King, Suit::Clubs),
            ],
        ),
        bot(
            "Bob",
            vec![
                c(Rank::Jack, Suit::Hearts),
                c(Rank::Two, Suit::Hearts),
                c(Rank::Three, Suit::Hearts),
                c(Rank::Four, Suit::Hearts),
                c(Rank::King, Suit::Hearts),
            ],
        ),
    ];
    let mut war = War::new(players, 3);
    let before = all_cards_in(&war);
    let report = war.play_round().expect("a round can be played");
    assert_eq!(report.battles.len(), 1);
    let battle = &report.battles[0];
    assert_eq!(battle.candidates, vec![0, 1]);
    assert_eq!(battle.hand_lengths, vec![4, 4]);
    // each wages three cards, the third drawn on top
    assert_eq!(
        cards_of(&battle.draws[0]),
        vec![c(Rank::Six, Suit::Clubs), c(Rank::Five, Suit::Clubs), c(Rank::Four, Suit::Clubs)]
    );
    assert_eq!(
        cards_of(&battle.draws[1]),
        vec![c(Rank::Four, Suit::Hearts), c(Rank::Three, Suit::Hearts), c(Rank::Two, Suit::Hearts)]
    );
    // Four beats Two
    assert_eq!(report.winner, Some(0));
    assert_eq!(report.gained.len(), 8);
    assert_eq!(war.player(0).hand().len(), 9);
    assert_eq!(cards_of(war.player(1).hand()), vec![c(Rank::Jack, Suit::Hearts)]);
    assert!(report.eliminated.is_empty());
    assert_eq!(all_cards_in(&war), before);
}

#[test]
fn war_with_short_hands_wages_what_is_left() {
    let players = vec![
        bot("Ann", vec![c(Rank::Two, Suit::Clubs), c(Rank::Nine, Suit::Clubs)]),
        bot("Bob", vec![c(Rank::Ace, Suit::Hearts), c(Rank::Three, Suit::Hearts), c(Rank::Nine, Suit::Hearts)]),
    ];
    let mut war = War::new(players, 3);
    let report = war.play_round().expect("a round can be played");
    let battle = &report.battles[0];
    assert_eq!(battle.hand_lengths, vec![1, 2]);
    assert_eq!(cards_of(&battle.draws[0]), vec![c(Rank::Two, Suit::Clubs)]);
    assert_eq!(cards_of(&battle.draws[1]), vec![c(Rank::Three, Suit::Hearts), c(Rank::Ace, Suit::Hearts)]);
    assert_eq!(report.winner, Some(1));
    assert_eq!(report.eliminated, vec![0]);
    assert_eq!(war.player(1).hand().len(), 5);
}

#[test]
fn round_needs_cards_for_everyone_still_in() {
    let players = vec![bot("Ann", vec![c(Rank::Two, Suit::Clubs)]), bot("Bob", vec![])];
    let mut war = War::new(players, 3);
    assert!(war.play_round().is_none());
    assert_eq!(war.player(0).hand().len(), 1);
}

#[test]
fn leaderboard_lists_places() {
    let players = vec![
        bot("Ann", vec![c(Rank::King, Suit::Spades)]),
        WarPlayer::Human(HumanWarPlayer::new("Bob")),
    ];
    let mut war = War::new(players, 3);
    // Bob holds nothing: give him a low card
    let mut bob = HumanWarPlayer::new("Bob");
    bob.hand.stack(c(Rank::Two, Suit::Hearts));
    let mut war2 = War::new(vec![bot("Ann", vec![c(Rank::King, Suit::Spades)]), WarPlayer::Human(bob)], 3);
    assert!(war.play_round().is_none());
    let report = war2.play_round().expect("round");
    assert_eq!(report.eliminated, vec![1]);
    let board = war2.leaderboard().expect("a board");
    let dots = ".".repeat(17);
    let dashes = "-".repeat(27);
    let expected = format!(
        "{}LEADERBOARD:\n{}\n\n 1ST {} Ann\n 2ND {} Bob\n\n{}\n\n",
        " ".repeat(7),
        dashes,
        dots,
        dots,
        dashes
    );
    assert_eq!(board, expected);
}

#[test]
fn leaderboard_shares_places_and_counts_up() {
    // four players; Cy and Di go out together, then Bob
    let mut war = War::new(
        vec![
            bot("Ann", vec![c(Rank::Five, Suit::Clubs), c(Rank::King, Suit::Clubs)]),
            bot("Bob", vec![c(Rank::Two, Suit::Spades), c(Rank::Queen, Suit::Spades)]),
            bot("Cy", vec![c(Rank::Three, Suit::Hearts)]),
            bot("Di", vec![c(Rank::Four, Suit::Diamonds)]),
        ],
        3,
    );
    let first = war.play_round().expect("round");
    assert_eq!(first.winner, Some(0));
    assert_eq!(first.eliminated, vec![2, 3]);
    // Ann: Five under four gained cards; Bob: Two
    let second = war.play_round().expect("round");
    assert_eq!(second.eliminated, vec![1]);
    assert_eq!(war.active_players(), vec![0]);
    let board = war.leaderboard().expect("a board");
    let lines: Vec<&str> = board.lines().collect();
    assert_eq!(lines[3], format!(" 1ST {} Ann", ".".repeat(17)));
    assert_eq!(lines[4], format!(" 2ND {} Bob", ".".repeat(17)));
    assert_eq!(lines[5], format!(" 3RD {} Cy", ".".repeat(18)));
    assert_eq!(lines[6], format!(" 3RD {} Di", ".".repeat(18)));
}

#[test]
fn war_draw_takes_cards_from_the_top() {
    let mut p = bot("Ann", vec![c(Rank::Two, Suit::Clubs), c(Rank::Three, Suit::Clubs), c(Rank::Four, Suit::Clubs)]);
    let drawn = p.war_draw(2);
    assert_eq!(cards_of(&drawn), vec![c(Rank::Four, Suit::Clubs), c(Rank::Three, Suit::Clubs)]);
    assert_eq!(cards_of(p.hand()), vec![c(Rank::Two, Suit::Clubs)]);
    let rest = p.war_draw(5);
    assert_eq!(cards_of(&rest), vec![c(Rank::Two, Suit::Clubs)]);
    assert_eq!(p.war_draw(3).len(), 0);
    assert_eq!(p.draw(), None);
    assert_eq!(p.name(), "Ann");
    assert!(!p.informs());
    assert!(WarPlayer::Human(HumanWarPlayer::new("Me")).informs());
}
