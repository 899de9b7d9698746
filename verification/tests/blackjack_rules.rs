use go_fish::blackjack::game::{format_money, Action, Blackjack};
use go_fish::blackjack::players::BlackjackPlayer;
use go_fish::card::{Card, Rank, Suit};
use go_fish::deck::Deck;

struct Table {
    name: String,
    money: usize,
}

impl BlackjackPlayer for Table {
    fn name(&self) -> &str {
        &self.name
    }

    fn bankroll(&self) -> usize {
        self.money
    }

    fn bet(&mut self, betting_minimum: usize, _betting_maximum: usize) -> usize {
        self.money -= betting_minimum;
        betting_minimum
    }

    fn pay(&mut self, amount: usize) {
        self.money += amount;
    }

    fn choose_action(&self, _hand: &Deck, actions: &[Action]) -> Action {
        actions[0]
    }
}

fn c(rank: Rank, suit: Suit) -> Card {
    Card::new(rank, suit)
}

fn deck(cards: Vec<Card>) -> Deck {
    Deck::from_cards(cards)
}

type Game = Blackjack<Table>;

fn table(name: &str) -> Table {
    Table { name: String::from(name), money: 10_000 }
}

#[test]
fn hand_values_count_aces_high_then_low() {
    assert_eq!(Game::hand_values(&deck(vec![c(Rank::Ace, Suit::Clubs), c(Rank::King, Suit::Clubs)])), vec![21, 11]);
    assert_eq!(
        Game::hand_values(&deck(vec![c(Rank::Ace, Suit::Clubs), c(Rank::Ace, Suit::Hearts), c(Rank::Nine, Suit::Clubs)])),
        vec![31, 21, 11]
    );
    assert_eq!(Game::hand_values(&deck(vec![c(Rank::Five, Suit::Clubs), c(Rank::Seven, Suit::Clubs)])), vec![12]);
    assert_eq!(Game::hand_values(&deck(vec![c(Rank::Ace, Suit::Spades)])), vec![11, 1]);
    assert_eq!(Game::hand_values(&Deck::empty()), vec![0]);
    assert_eq!(
        Game::hand_values(&deck(vec![c(Rank::Jack, Suit::Clubs), c(Rank::Queen, Suit::Clubs), c(Rank::Two, Suit::Clubs)])),
        vec![22]
    );
}

#[test]
fn ten_cards() {
    for rank in Rank::ranks() {
        let ten = matches!(rank, Rank::Ten | Rank::Jack | Rank::Queen | Rank::King);
        assert_eq!(Game::is_ten_card(c(rank, Suit::Hearts)), ten);
    }
}

#[test]
fn money_is_shown_in_dollars() {
    assert_eq!(format_money(100), "$1.00");
    assert_eq!(format_money(200), "$2.00");
    assert_eq!(format_money(50000), "$500.00");
    assert_eq!(format_money(123456), "$1234.56");
    assert_eq!(format_money(105), "$1.05");
}

#[test]
fn possible_actions_depend_on_bankroll_and_pair() {
    let pair = deck(vec![c(Rank::Eight, Suit::Clubs), c(Rank::Eight, Suit::Hearts)]);
    let mixed = deck(vec![c(Rank::Eight, Suit::Clubs), c(Rank::Nine, Suit::Hearts)]);
    assert_eq!(Game::possible_actions(1000, 200, &pair), vec![Action::Hit, Action::Stand, Action::DoubleDown, Action::Split]);
    assert_eq!(Game::possible_actions(200, 200, &pair), vec![Action::Hit, Action::Stand, Action::Split]);
    assert_eq!(Game::possible_actions(1000, 200, &mixed), vec![Action::Hit, Action::Stand, Action::DoubleDown]);
    assert_eq!(Game::possible_actions(0, 200, &mixed), vec![Action::Hit, Action::Stand]);
}

#[test]
fn new_game_and_opening_deal() {
    let mut game = Game::new(vec![table("Ann"), table("Bob")]);
    assert_eq!(game.cards_left(), 52);
    assert_eq!(game.player(1).name(), "Bob");
    game.player_mut(0).pay(5);
    assert_eq!(game.player(0).bankroll(), 10_005);
    game.deal_opening();
    assert_eq!(game.cards_left(), 46);
    assert_eq!(game.hand(0).len(), 2);
    assert_eq!(game.hand(1).len(), 2);
    assert_eq!(game.dealer().len(), 2);
    let mut seen = Vec::new();
    for p in 0..2 {
        for i in 0..2 {
            seen.push(game.hand(p).card_at_index(i));
        }
    }
    seen.push(game.dealer().card_at_index(0));
    seen.push(game.dealer().card_at_index(1));
    seen.sort();
    seen.dedup();
    assert_eq!(seen.len(), 6);
}

fn natural(hand: &Deck) -> bool {
    Game::hand_values(hand)[0] == 21
}

#[test]
fn opening_settlement_pays_naturals() {
    for _ in 0..200 {
        let mut game = Game::new(vec![table("Ann"), table("Bob"), table("Cy")]);
        game.deal_opening();
        let bets = [200, 300, 1000];
        let insurance = [100, 0, 500];
        let (payouts, playing) = game.opening_settlement(&bets, &insurance);
        let dealer = game.dealer();
        let insured = dealer.card_at_index(0).rank == Rank::Ace && Game::is_ten_card(dealer.card_at_index(1));
        for p in 0..3 {
            let nat = natural(game.hand(p));
            let mut expected = 0;
            if insured {
                expected += 2 * insurance[p];
            }
            if nat {
                if natural(dealer) {
                    expected += bets[p];
                } else {
                    expected += 3 * bets[p] / 2 + bets[p];
                }
            }
            assert_eq!(payouts[p], expected);
            assert_eq!(playing[p], !nat && !natural(dealer));
        }
    }
}

#[test]
fn actions_draw_or_stop() {
    let mut game = Game::new(vec![table("Ann")]);
    let mut hand = Deck::empty();
    let mut doubled = Deck::empty();
    assert!(game.take_action(Action::Hit, &mut hand, &mut doubled));
    assert_eq!(hand.len(), 1);
    assert_eq!(game.cards_left(), 51);
    assert!(game.take_action(Action::DoubleDown, &mut hand, &mut doubled));
    assert_eq!(doubled.len(), 1);
    assert_eq!(hand.len(), 1);
    assert_eq!(game.cards_left(), 50);
    assert!(game.take_action(Action::Split, &mut hand, &mut doubled));
    assert!(!game.take_action(Action::Stand, &mut hand, &mut doubled));
    assert_eq!(game.cards_left(), 50);
    assert_eq!(hand.len(), 1);
}

#[test]
fn double_natural_pays_the_bet_back() {
    // search deals until the player and the dealer both hold naturals
    let mut found = false;
    for _ in 0..200_000 {
        let mut game = Game::new(vec![table("Ann")]);
        game.deal_opening();
        if natural(game.hand(0)) && natural(game.dealer()) {
            let (payouts, playing) = game.opening_settlement(&[200], &[0]);
            assert_eq!(payouts, vec![200]);
            assert_eq!(playing, vec![false]);
            found = true;
            break;
        }
    }
    assert!(found);
}

#[test]
fn bets_insurance_and_payments() {
    let mut game = Game::new(vec![table("Ann"), table("Bob")]);
    let bets = game.collect_bets(200, 50000);
    assert_eq!(bets, vec![200, 200]);
    assert_eq!(game.player(0).bankroll(), 9_800);
    game.deal_opening();
    let insurance = game.collect_insurance(&bets, 200);
    let ace_up = game.dealer().card_at_index(0).rank == Rank::Ace;
    if ace_up {
        assert_eq!(insurance, vec![100, 100]);
        assert_eq!(game.player(0).bankroll(), 9_700);
    } else {
        assert_eq!(insurance, vec![0, 0]);
    }
    let before = [game.player(0).bankroll(), game.player(1).bankroll()];
    let (payouts, _playing) = game.pay_opening(&bets, &insurance);
    for p in 0..2 {
        assert_eq!(game.player(p).bankroll(), before[p] + payouts[p]);
    }
}

#[test]
fn turn_step_takes_the_chosen_action() {
    // the table player always takes the first action offered: a hit
    let mut game = Game::new(vec![table("Ann")]);
    game.deal_opening();
    let mut doubled = Deck::empty();
    let left = game.cards_left();
    let (action, goes_on) = game.turn_step(0, 200, &mut doubled);
    assert_eq!(action, Action::Hit);
    assert_eq!(goes_on, Some(true));
    assert_eq!(game.hand(0).len(), 3);
    assert_eq!(game.cards_left(), left - 1);
    assert_eq!(doubled.len(), 0);
}

#[test]
fn insurance_limits_halve_minimum_and_bet() {
    assert_eq!(go_fish::blackjack::game::insurance_limits(200, 1000), (100, 500));
    assert_eq!(go_fish::blackjack::game::insurance_limits(201, 301), (100, 150));
}
