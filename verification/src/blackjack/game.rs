//! The rules of Blackjack: what a hand is worth, the opening deal, what a player may do on
//! their turn, and what is paid out for naturals before the turns.

use vstd::prelude::*;
use vstd::multiset::Multiset;

use crate::card::{Card, Rank};
use crate::deck::{cards_in, standard_deck, Deck};
use crate::text::{chars_of, decimal, decimal_string};
use super::players::BlackjackPlayer;

verus! {

/// What a player does on their turn.
#[derive(Copy, Clone, Debug, PartialEq, Eq, Structural)]
pub enum Action {
    Hit,
    Stand,
    Split,
    DoubleDown,
    /// No action: the player is only shown their hand.
    Nothing,
}

/// The value of a card of rank `rank`, an ace counted as eleven.
pub open spec fn card_value(rank: Rank) -> nat {
    match rank {
        Rank::Two => 2,
        Rank::Three => 3,
        Rank::Four => 4,
        Rank::Five => 5,
        Rank::Six => 6,
        Rank::Seven => 7,
        Rank::Eight => 8,
        Rank::Nine => 9,
        Rank::Ten | Rank::Jack | Rank::Queen | Rank::King => 10,
        Rank::Ace => 11,
    }
}

/// The value of a hand, every ace counted as eleven.
pub open spec fn hand_total(hand: Seq<Card>) -> nat
    decreases hand.len(),
{
    if hand.len() == 0 {
        0
    } else {
        hand_total(hand.drop_last()) + card_value(hand.last().rank)
    }
}

/// The number of aces in a hand.
pub open spec fn ace_count(hand: Seq<Card>) -> nat
    decreases hand.len(),
{
    if hand.len() == 0 {
        0
    } else {
        ace_count(hand.drop_last()) + if hand.last().rank == Rank::Ace {
            1nat
        } else {
            0nat
        }
    }
}

/// The values a hand can have: every ace counted as eleven, then one more ace counted as one
/// at each step, down to every ace counted as one.
pub open spec fn spec_hand_values(hand: Seq<Card>) -> Seq<int> {
    Seq::new(ace_count(hand) + 1, |i: int| hand_total(hand) - 10 * i)
}

/// Whether a card of rank `rank` is worth ten: a ten, a jack, a queen or a king.
pub open spec fn is_ten_rank(rank: Rank) -> bool {
    rank == Rank::Ten || rank == Rank::Jack || rank == Rank::Queen || rank == Rank::King
}

/// Whether a hand is a natural: worth 21 with its aces counted as eleven.
pub open spec fn is_natural(hand: Seq<Card>) -> bool {
    hand_total(hand) == 21
}

/// Every ace is worth at least ten, so the hand is worth at least ten for each ace, and
/// never more than eleven per card.
pub proof fn lemma_hand_total_bounds(hand: Seq<Card>)
    ensures
        10 * ace_count(hand) <= hand_total(hand) <= 11 * hand.len(),
        ace_count(hand) <= hand.len(),
    decreases hand.len(),
{
    if hand.len() > 0 {
        lemma_hand_total_bounds(hand.drop_last());
    }
}

/// What a card adds to a hand, every ace counted as eleven: its number for Two to Nine, ten
/// for a Ten, a Jack, a Queen or a King, and eleven for an Ace (ranks at places 0 to 7 are
/// Two to Nine, at 8 to 11 Ten to King, at 12 Ace); an ace also adds one to the aces counted.
pub proof fn adding_a_card_adds_its_worth(hand: Seq<Card>, card: Card)
    ensures
        hand_total(hand.push(card)) == hand_total(hand) + if card.rank.pos() <= 7 {
            card.rank.pos() + 2
        } else if card.rank.pos() <= 11 {
            10
        } else {
            11
        },
        ace_count(hand.push(card)) == ace_count(hand) + if card.rank.pos() == 12 {
            1nat
        } else {
            0nat
        },
{
    assert(hand.push(card).drop_last() =~= hand);
}

/// An ace with a ten, a jack, a queen or a king, in either order, is a natural: worth 21.
pub proof fn ace_and_ten_card_make_a_natural(ace: Card, ten: Card)
    requires
        ace.rank == Rank::Ace,
        ten.rank == Rank::Ten || ten.rank == Rank::Jack || ten.rank == Rank::Queen || ten.rank
            == Rank::King,
    ensures
        is_natural(seq![ace, ten]),
        is_natural(seq![ten, ace]),
{
    let e = Seq::<Card>::empty();
    adding_a_card_adds_its_worth(e, ace);
    adding_a_card_adds_its_worth(e, ten);
    adding_a_card_adds_its_worth(e.push(ace), ten);
    adding_a_card_adds_its_worth(e.push(ten), ace);
    assert(e.push(ace).push(ten) =~= seq![ace, ten]);
    assert(e.push(ten).push(ace) =~= seq![ten, ace]);
}

/// What is paid to a player at the opening settlement, with bet `bet`, insurance bet
/// `insurance`, hand `hand`, against the dealer's hand `dealer` (the first card face up):
/// where the dealer shows an ace over a ten card, twice the insurance bet; and to a natural,
/// the bet back where the dealer has a natural too, else one and a half times the bet on top
/// of the bet.
pub open spec fn opening_payout(bet: nat, insurance: nat, hand: Seq<Card>, dealer: Seq<Card>) -> nat {
    let insured = if dealer[0].rank == Rank::Ace && is_ten_rank(dealer[1].rank) {
        2 * insurance
    } else {
        0
    };
    let natural = if is_natural(hand) {
        if is_natural(dealer) {
            bet
        } else {
            bet + bet / 2 + bet
        }
    } else {
        0
    };
    insured + natural
}

/// The actions open to a player with `bankroll` who bet `bet` on `hand`: hit and stand; double
/// down where the bankroll is more than the bet; split where the first two cards have one rank.
pub open spec fn spec_possible_actions(bankroll: usize, bet: usize, hand: Seq<Card>) -> Seq<Action> {
    let base = seq![Action::Hit, Action::Stand];
    let with_double = if bankroll > bet {
        base.push(Action::DoubleDown)
    } else {
        base
    };
    if hand[0].rank == hand[1].rank {
        with_double.push(Action::Split)
    } else {
        with_double
    }
}

/// The opening hands dealt from the deck `d` to `n` players: player `p` gets the card `p` from
/// the top, then the card `n + 1 + p` from the top.
pub open spec fn opening_hands(d: Seq<Card>, n: int) -> Seq<Seq<Card>> {
    let l = d.len() as int;
    Seq::new(n as nat, |p: int| seq![d[l - 1 - p], d[l - 2 - n - p]])
}

/// The dealer's opening hand from the deck `d` with `n` players: the card `n` from the top,
/// then the card `2 n + 1` from the top.
pub open spec fn opening_dealer(d: Seq<Card>, n: int) -> Seq<Card> {
    let l = d.len() as int;
    seq![d[l - 1 - n], d[l - 2 - 2 * n]]
}

/// The first `k` opening hands hold the `k` top cards and the `k` cards below the dealer's
/// first card.
proof fn lemma_opening_hands_cards(d: Seq<Card>, n: int, k: int)
    requires
        0 <= k <= n,
        d.len() >= 2 * n + 2,
    ensures
        cards_in(opening_hands(d, n).take(k)) == d.subrange(d.len() - k, d.len() as int).to_multiset().add(
            d.subrange(d.len() - 1 - n - k, d.len() - 1 - n).to_multiset(),
        ),
    decreases k,
{
    broadcast use vstd::seq_lib::group_to_multiset_ensures;
    broadcast use vstd::multiset::group_multiset_axioms;

    let l = d.len() as int;
    let hands = opening_hands(d, n);
    if k == 0 {
        assert(hands.take(0) =~= Seq::<Seq<Card>>::empty());
        assert(d.subrange(l, l) =~= Seq::<Card>::empty());
        assert(d.subrange(l - 1 - n, l - 1 - n) =~= Seq::<Card>::empty());
        assert(Multiset::<Card>::empty().add(Multiset::empty()) =~= Multiset::empty());
    } else {
        lemma_opening_hands_cards(d, n, k - 1);
        assert(hands.take(k).drop_last() =~= hands.take(k - 1));
        assert(hands.take(k).last() == seq![d[l - k], d[l - 1 - n - k]]);
        let top = d.subrange(l - k, l);
        let low = d.subrange(l - 1 - n - k, l - 1 - n);
        assert(top =~= seq![d[l - k]] + d.subrange(l - k + 1, l));
        assert(low =~= seq![d[l - 1 - n - k]] + d.subrange(l - n - k, l - 1 - n));
        vstd::seq_lib::lemma_multiset_commutative(seq![d[l - k]], d.subrange(l - k + 1, l));
        vstd::seq_lib::lemma_multiset_commutative(
            seq![d[l - 1 - n - k]],
            d.subrange(l - n - k, l - 1 - n),
        );
        assert(seq![d[l - k], d[l - 1 - n - k]] =~= seq![d[l - k]].push(d[l - 1 - n - k]));
        assert(cards_in(hands.take(k)) =~= top.to_multiset().add(low.to_multiset()));
    }
}

/// The opening deal makes and loses no card: the players' hands, the dealer's hand and the
/// cards left in the deck are the cards of the deck before.
pub proof fn opening_deal_keeps_cards(d: Seq<Card>, n: int)
    requires
        0 <= n,
        d.len() >= 2 * n + 2,
    ensures
        cards_in(opening_hands(d, n)).add(opening_dealer(d, n).to_multiset()).add(
            d.take(d.len() - 2 * n - 2).to_multiset(),
        ) == d.to_multiset(),
{
    broadcast use vstd::seq_lib::group_to_multiset_ensures;
    broadcast use vstd::seq_lib::lemma_multiset_commutative;
    broadcast use vstd::multiset::group_multiset_axioms;

    let l = d.len() as int;
    lemma_opening_hands_cards(d, n, n);
    assert(opening_hands(d, n).take(n) =~= opening_hands(d, n));
    let rest = d.take(l - 2 * n - 2);
    let low = d.subrange(l - 1 - 2 * n, l - 1 - n);
    let top = d.subrange(l - n, l);
    assert(d =~= rest + seq![d[l - 2 - 2 * n]] + low + seq![d[l - 1 - n]] + top);
    assert(opening_dealer(d, n) =~= seq![d[l - 1 - n]].push(d[l - 2 - 2 * n]));
    assert(cards_in(opening_hands(d, n)).add(opening_dealer(d, n).to_multiset()).add(
        rest.to_multiset(),
    ) =~= d.to_multiset());
}

/// The value of a hand with its aces counted as eleven.
fn hand_total_of(hand: &Deck) -> (total: usize)
    requires
        11 * hand@.len() <= usize::MAX,
    ensures
        total == hand_total(hand@),
{
    let mut total: usize = 0;
    let mut i: usize = 0;
    while i < hand.len()
        invariant
            i <= hand@.len(),
            11 * hand@.len() <= usize::MAX,
            total == hand_total(hand@.take(i as int)),
        decreases hand@.len() - i,
    {
        proof {
            assert(hand@.take(i + 1).drop_last() =~= hand@.take(i as int));
            lemma_hand_total_bounds(hand@.take(i as int));
        }
        let card = hand.card_at_index(i);
        total = total + card_value_of(card.rank);
        i += 1;
    }
    assert(hand@.take(hand@.len() as int) =~= hand@);
    total
}

/// The value of a card of rank `rank`, an ace counted as eleven.
fn card_value_of(rank: Rank) -> (value: usize)
    ensures
        value == card_value(rank),
{
    match rank {
        Rank::Two => 2,
        Rank::Three => 3,
        Rank::Four => 4,
        Rank::Five => 5,
        Rank::Six => 6,
        Rank::Seven => 7,
        Rank::Eight => 8,
        Rank::Nine => 9,
        Rank::Ten | Rank::Jack | Rank::Queen | Rank::King => 10,
        Rank::Ace => 11,
    }
}

/// `amount` cents as dollars: a dollar sign, the dollars, a point and the two digits of the
/// cents.
pub fn format_money(amount: usize) -> (money: String)
    requires
        amount >= 100,
    ensures
        ({
            let d = decimal(amount as nat);
            money@ == seq!['$'] + d.take(d.len() - 2) + seq!['.'] + d.skip(d.len() - 2)
        }),
{
    let digits = decimal_string(amount);
    let chars = chars_of(digits.as_str());
    let ghost d = decimal(amount as nat);
    proof {
        reveal_with_fuel(decimal, 3);
        assert(amount / 10 >= 10);
        assert(decimal((amount / 10) as nat).len() >= 2);
    }
    let n = chars.len();
    let mut money = String::new();
    money.push('$');
    let mut i: usize = 0;
    while i < n - 2
        invariant
            n == d.len(),
            n >= 3,
            chars@ == d,
            i <= n - 2,
            money@ == seq!['$'] + d.take(i as int),
        decreases n - 2 - i,
    {
        money.push(chars[i]);
        i += 1;
        assert(money@ =~= seq!['$'] + d.take(i as int));
    }
    money.push('.');
    money.push(chars[n - 2]);
    money.push(chars[n - 1]);
    assert(money@ =~= seq!['$'] + d.take(d.len() - 2) + seq!['.'] + d.skip(d.len() - 2));
    money
}

/// The limits of an insurance bet for a player who bet `bet`, where bets start at
/// `betting_minimum`: from half the minimum up to half the bet.
pub fn insurance_limits(betting_minimum: usize, bet: usize) -> (limits: (usize, usize))
    ensures
        limits == (betting_minimum / 2, bet / 2),
{
    (betting_minimum / 2, bet / 2)
}

/// A game of Blackjack.
pub struct Blackjack<P: BlackjackPlayer> {
    deck: Deck,
    dealer: Deck,
    hands: Vec<Deck>,
    splits: Vec<Vec<Deck>>,
    bets: Vec<usize>,
    insurance_bets: Vec<usize>,
    double_down_cards: Vec<Card>,
    players: Vec<P>,
}

impl<P: BlackjackPlayer> Blackjack<P> {
    /// The cards of the deck.
    pub closed spec fn deck_view(self) -> Seq<Card> {
        self.deck@
    }

    /// The dealer's cards.
    pub closed spec fn dealer_view(self) -> Seq<Card> {
        self.dealer@
    }

    /// The players' hands.
    pub closed spec fn hands_view(self) -> Seq<Seq<Card>> {
        self.hands@.map_values(|h: Deck| h@)
    }

    /// The players.
    pub closed spec fn players_view(self) -> Seq<P> {
        self.players@
    }

    /// Whether nothing has been dealt or bet yet.
    pub closed spec fn nothing_dealt(self) -> bool {
        &&& self.dealer@.len() == 0
        &&& self.hands@.len() == 0
        &&& self.splits@.len() == 0
        &&& self.bets@.len() == 0
        &&& self.insurance_bets@.len() == 0
        &&& self.double_down_cards@.len() == 0
    }

    /// A game for `players` with a shuffled 52 card deck, nothing dealt or bet yet.
    pub fn new(players: Vec<P>) -> (game: Self)
        ensures
            game.deck_view().len() == 52,
            game.deck_view().to_multiset() == standard_deck().to_multiset(),
            game.players_view() == players@,
            game.nothing_dealt(),
    {
        Blackjack {
            deck: Deck::shuffled_52_card(),
            dealer: Deck::empty(),
            hands: Vec::new(),
            splits: Vec::new(),
            bets: Vec::new(),
            insurance_bets: Vec::new(),
            double_down_cards: Vec::new(),
            players,
        }
    }

    /// The player at `player_index`.
    pub fn player(&self, player_index: usize) -> (player: &P)
        requires
            player_index < self.players_view().len(),
        ensures
            *player == self.players_view()[player_index as int],
    {
        &self.players[player_index]
    }

    /// The player at `player_index`, to change.
    pub fn player_mut(&mut self, player_index: usize) -> (player: &mut P)
        requires
            player_index < old(self).players_view().len(),
        ensures
            *player == old(self).players_view()[player_index as int],
            final(self).players_view() == old(self).players_view().update(player_index as int, *final(player)),
            final(self).deck_view() == old(self).deck_view(),
            final(self).dealer_view() == old(self).dealer_view(),
            final(self).hands_view() == old(self).hands_view(),
    {
        &mut self.players[player_index]
    }

    /// Deals the opening hands from the top of the deck: a card to each player in turn, one to
    /// the dealer (face up), a second card to each player, and a second to the dealer. The hands
    /// dealt before are put aside.
    pub fn deal_opening(&mut self)
        requires
            old(self).deck_view().len() >= 2 * old(self).players_view().len() + 2,
        ensures
            ({
                let d = old(self).deck_view();
                let l = d.len() as int;
                let n = old(self).players_view().len() as int;
                &&& final(self).deck_view() == d.take(l - 2 * n - 2)
                &&& final(self).hands_view() == opening_hands(d, n)
                &&& final(self).dealer_view() == opening_dealer(d, n)
            }),
            final(self).players_view() == old(self).players_view(),
    {
        let n = self.players.len();
        let ghost d = self.deck@;
        let ghost l = d.len() as int;
        let mut hands: Vec<Deck> = Vec::new();
        let mut p: usize = 0;
        while p < n
            invariant
                p <= n,
                n == self.players@.len(),
                l == d.len(),
                l >= 2 * n + 2,
                self.deck@ == d.take(l - p),
                hands@.len() == p,
                forall|q: int| 0 <= q < p ==> #[trigger] hands@[q]@ == seq![d[l - 1 - q]],
                self.players@ == old(self).players@,
            decreases n - p,
        {
            let card = self.deck.draw();
            assert(d.take(l - p).drop_last() =~= d.take(l - p - 1));
            let mut hand = Deck::empty();
            if let Some(c) = card {
                hand.stack(c);
            }
            hands.push(hand);
            p += 1;
        }
        let mut dealer = Deck::empty();
        assert(d.take(l - n).drop_last() =~= d.take(l - n - 1));
        if let Some(c) = self.deck.draw() {
            dealer.stack(c);
        }
        let mut p: usize = 0;
        while p < n
            invariant
                p <= n,
                n == self.players@.len(),
                l == d.len(),
                l >= 2 * n + 2,
                self.deck@ == d.take(l - n - 1 - p),
                hands@.len() == n,
                forall|q: int| 0 <= q < p ==> #[trigger] hands@[q]@ == seq![d[l - 1 - q], d[l - 2 - n - q]],
                forall|q: int| p <= q < n ==> #[trigger] hands@[q]@ == seq![d[l - 1 - q]],
                self.players@ == old(self).players@,
            decreases n - p,
        {
            assert(d.take(l - n - 1 - p).drop_last() =~= d.take(l - n - 2 - p));
            if let Some(c) = self.deck.draw() {
                hands[p].stack(c);
                assert(hands@[p as int]@ =~= seq![d[l - 1 - p], d[l - 2 - n - p]]);
            }
            p += 1;
        }
        assert(d.take(l - 2 * n - 1).drop_last() =~= d.take(l - 2 * n - 2));
        if let Some(c) = self.deck.draw() {
            dealer.stack(c);
        }
        assert(dealer@ =~= seq![d[l - 1 - n], d[l - 2 - 2 * n]]);
        self.hands = hands;
        self.dealer = dealer;
        assert forall|q: int| 0 <= q < n implies #[trigger] self.hands_view()[q] == seq![
            d[l - 1 - q],
            d[l - 2 - n - q],
        ] by {
            assert(self.hands_view()[q] == self.hands@[q]@);
        }
        assert(self.hands_view() =~= opening_hands(d, n as int));
    }

    /// What is paid to each player at the opening settlement for their bet and insurance bet
    /// (see `opening_payout`), and which players play a turn: none where the dealer has a
    /// natural (the round ends), else those without a natural.
    pub fn opening_settlement(&self, bets: &[usize], insurance_bets: &[usize]) -> (settled: (
        Vec<usize>,
        Vec<bool>,
    ))
        requires
            bets@.len() == self.hands_view().len(),
            insurance_bets@.len() == self.hands_view().len(),
            self.dealer_view().len() >= 2,
            11 * self.dealer_view().len() <= usize::MAX,
            forall|p: int|
                0 <= p < self.hands_view().len() ==> 11 * (#[trigger] self.hands_view()[p]).len()
                    <= usize::MAX,
            forall|p: int|
                0 <= p < self.hands_view().len() ==> #[trigger] opening_payout(
                    bets@[p] as nat,
                    insurance_bets@[p] as nat,
                    self.hands_view()[p],
                    self.dealer_view(),
                ) <= usize::MAX,
        ensures
            settled.0@.len() == self.hands_view().len(),
            settled.1@.len() == self.hands_view().len(),
            forall|p: int|
                0 <= p < self.hands_view().len() ==> #[trigger] settled.0@[p] == opening_payout(
                    bets@[p] as nat,
                    insurance_bets@[p] as nat,
                    self.hands_view()[p],
                    self.dealer_view(),
                ),
            forall|p: int|
                0 <= p < self.hands_view().len() ==> #[trigger] settled.1@[p] == (!is_natural(
                    self.hands_view()[p],
                ) && !is_natural(self.dealer_view())),
    {
        let n = self.hands.len();
        let dealer_natural = hand_total_of(&self.dealer) == 21;
        let insured = self.dealer.card_at_index(0).rank == Rank::Ace && Self::is_ten_card(
            self.dealer.card_at_index(1),
        );
        let mut payouts: Vec<usize> = Vec::new();
        let mut playing: Vec<bool> = Vec::new();
        let mut p: usize = 0;
        while p < n
            invariant
                p <= n,
                n == self.hands_view().len(),
                bets@.len() == n,
                insurance_bets@.len() == n,
                self.dealer_view().len() >= 2,
                dealer_natural == is_natural(self.dealer_view()),
                insured == (self.dealer_view()[0].rank == Rank::Ace && is_ten_rank(
                    self.dealer_view()[1].rank,
                )),
                forall|q: int|
                    0 <= q < n ==> 11 * (#[trigger] self.hands_view()[q]).len() <= usize::MAX,
                forall|q: int|
                    0 <= q < n ==> #[trigger] opening_payout(
                        bets@[q] as nat,
                        insurance_bets@[q] as nat,
                        self.hands_view()[q],
                        self.dealer_view(),
                    ) <= usize::MAX,
                payouts@.len() == p,
                playing@.len() == p,
                forall|q: int|
                    0 <= q < p ==> #[trigger] payouts@[q] == opening_payout(
                        bets@[q] as nat,
                        insurance_bets@[q] as nat,
                        self.hands_view()[q],
                        self.dealer_view(),
                    ),
                forall|q: int|
                    0 <= q < p ==> #[trigger] playing@[q] == (!is_natural(self.hands_view()[q])
                        && !is_natural(self.dealer_view())),
            decreases n - p,
        {
            assert(self.hands_view()[p as int] == self.hands@[p as int]@);
            let ghost total = opening_payout(
                bets@[p as int] as nat,
                insurance_bets@[p as int] as nat,
                self.hands_view()[p as int],
                self.dealer_view(),
            );
            assert(11 * self.hands_view()[p as int].len() <= usize::MAX);
            let natural = hand_total_of(&self.hands[p]) == 21;
            let bet = bets[p];
            let insurance = insurance_bets[p];
            let mut payout: usize = 0;
            if insured {
                payout = 2 * insurance;
            }
            if natural {
                if dealer_natural {
                    payout = payout + bet;
                } else {
                    payout = payout + bet + bet / 2 + bet;
                }
            }
            payouts.push(payout);
            playing.push(!natural && !dealer_natural);
            p += 1;
        }
        (payouts, playing)
    }

    /// Takes a bet from each player in turn, asking for one from `betting_minimum` to
    /// `betting_maximum`, and returns the bets in player order.
    pub fn collect_bets(&mut self, betting_minimum: usize, betting_maximum: usize) -> (bets: Vec<
        usize,
    >)
        ensures
            bets@.len() == old(self).players_view().len(),
            final(self).players_view().len() == old(self).players_view().len(),
            final(self).deck_view() == old(self).deck_view(),
            final(self).dealer_view() == old(self).dealer_view(),
            final(self).hands_view() == old(self).hands_view(),
    {
        let n = self.players.len();
        let mut bets: Vec<usize> = Vec::new();
        let mut p: usize = 0;
        while p < n
            invariant
                p <= n,
                n == self.players@.len(),
                n == old(self).players@.len(),
                bets@.len() == p,
                self.deck@ == old(self).deck@,
                self.dealer@ == old(self).dealer@,
                self.hands@ == old(self).hands@,
            decreases n - p,
        {
            let bet = self.players[p].bet(betting_minimum, betting_maximum);
            bets.push(bet);
            p += 1;
        }
        bets
    }

    /// Takes the insurance bets: where the dealer's face-up card is an ace, each player in turn
    /// is asked for a bet within `insurance_limits(betting_minimum, bet)` (from half of
    /// `betting_minimum` up to half of their bet); else no one bets (all zero).
    pub fn collect_insurance(&mut self, bets: &[usize], betting_minimum: usize) -> (insurance: Vec<
        usize,
    >)
        requires
            bets@.len() == old(self).players_view().len(),
            old(self).dealer_view().len() >= 1,
        ensures
            insurance@.len() == old(self).players_view().len(),
            old(self).dealer_view()[0].rank != Rank::Ace ==> forall|p: int|
                0 <= p < insurance@.len() ==> #[trigger] insurance@[p] == 0,
            final(self).players_view().len() == old(self).players_view().len(),
            final(self).deck_view() == old(self).deck_view(),
            final(self).dealer_view() == old(self).dealer_view(),
            final(self).hands_view() == old(self).hands_view(),
    {
        let n = self.players.len();
        let ace_up = self.dealer.card_at_index(0).rank == Rank::Ace;
        let mut insurance: Vec<usize> = Vec::new();
        let mut p: usize = 0;
        while p < n
            invariant
                p <= n,
                n == self.players@.len(),
                n == old(self).players@.len(),
                bets@.len() == n,
                ace_up == (old(self).dealer_view()[0].rank == Rank::Ace),
                insurance@.len() == p,
                !ace_up ==> forall|q: int| 0 <= q < p ==> #[trigger] insurance@[q] == 0,
                self.deck@ == old(self).deck@,
                self.dealer@ == old(self).dealer@,
                self.hands@ == old(self).hands@,
            decreases n - p,
        {
            if ace_up {
                let (low, high) = insurance_limits(betting_minimum, bets[p]);
                let insurance_bet = self.players[p].bet(low, high);
                insurance.push(insurance_bet);
            } else {
                insurance.push(0);
            }
            p += 1;
        }
        insurance
    }

    /// The opening settlement (see `opening_settlement`): pays each player with a payout the
    /// amount owed, and returns the payouts and which players play a turn.
    pub fn pay_opening(&mut self, bets: &[usize], insurance_bets: &[usize]) -> (settled: (
        Vec<usize>,
        Vec<bool>,
    ))
        requires
            bets@.len() == old(self).hands_view().len(),
            insurance_bets@.len() == old(self).hands_view().len(),
            old(self).hands_view().len() == old(self).players_view().len(),
            old(self).dealer_view().len() >= 2,
            11 * old(self).dealer_view().len() <= usize::MAX,
            forall|p: int|
                0 <= p < old(self).hands_view().len() ==> 11 * (#[trigger] old(self).hands_view()[p]).len() <= usize::MAX,
            forall|p: int|
                0 <= p < old(self).hands_view().len() ==> #[trigger] opening_payout(
                    bets@[p] as nat,
                    insurance_bets@[p] as nat,
                    old(self).hands_view()[p],
                    old(self).dealer_view(),
                ) <= usize::MAX,
        ensures
            settled.0@.len() == old(self).hands_view().len(),
            settled.1@.len() == old(self).hands_view().len(),
            forall|p: int|
                0 <= p < old(self).hands_view().len() ==> #[trigger] settled.0@[p] == opening_payout(
                    bets@[p] as nat,
                    insurance_bets@[p] as nat,
                    old(self).hands_view()[p],
                    old(self).dealer_view(),
                ),
            forall|p: int|
                0 <= p < old(self).hands_view().len() ==> #[trigger] settled.1@[p] == (!is_natural(
                    old(self).hands_view()[p],
                ) && !is_natural(old(self).dealer_view())),
            final(self).players_view().len() == old(self).players_view().len(),
            final(self).deck_view() == old(self).deck_view(),
            final(self).dealer_view() == old(self).dealer_view(),
            final(self).hands_view() == old(self).hands_view(),
    {
        let settled = self.opening_settlement(bets, insurance_bets);
        let n = self.players.len();
        let mut p: usize = 0;
        while p < n
            invariant
                p <= n,
                n == self.players@.len(),
                n == old(self).players@.len(),
                settled.0@.len() == n,
                self.deck@ == old(self).deck@,
                self.dealer@ == old(self).dealer@,
                self.hands@ == old(self).hands@,
            decreases n - p,
        {
            let payout = settled.0[p];
            if payout > 0 {
                self.players[p].pay(payout);
            }
            p += 1;
        }
        settled
    }

    /// One step of the turn of the player at `player`, who bet `bet`: the player chooses among
    /// the actions open to them (see `possible_actions`), and the action is taken on their
    /// hand (see `take_action`); a double down draws to `double_down_hand`. Returns the action
    /// and whether the turn goes on, or `None` where the action cannot be taken: no action, or
    /// a card asked for from an empty deck.
    pub fn turn_step(&mut self, player: usize, bet: usize, double_down_hand: &mut Deck) -> (step: (
        Action,
        Option<bool>,
    ))
        requires
            player < old(self).hands_view().len(),
            old(self).hands_view().len() == old(self).players_view().len(),
            old(self).hands_view()[player as int].len() >= 2,
        ensures
            ({
                let (action, goes_on) = step;
                let d = old(self).deck_view();
                let h = old(self).hands_view();
                let draws = action == Action::Hit || action == Action::DoubleDown;
                &&& (action == Action::Nothing || (draws && d.len() == 0)) ==> goes_on is None
                    && final(self).deck_view() == d && final(self).hands_view() == h && final(double_down_hand)@ == old(double_down_hand)@
                &&& (action == Action::Hit && d.len() > 0) ==> goes_on == Some(true)
                    && final(self).deck_view() == d.drop_last() && final(self).hands_view()
                    == h.update(player as int, h[player as int].push(d.last())) && final(double_down_hand)@ == old(double_down_hand)@
                &&& (action == Action::DoubleDown && d.len() > 0) ==> goes_on == Some(true)
                    && final(self).deck_view() == d.drop_last() && final(self).hands_view() == h
                    && final(double_down_hand)@ == old(double_down_hand)@.push(d.last())
                &&& (action == Action::Stand || action == Action::Split) ==> goes_on == Some(
                    action == Action::Split,
                ) && final(self).deck_view() == d && final(self).hands_view() == h && final(double_down_hand)@ == old(double_down_hand)@
            }),
            final(self).players_view() == old(self).players_view(),
            final(self).dealer_view() == old(self).dealer_view(),
    {
        assert(self.hands_view()[player as int] == self.hands@[player as int]@);
        let bankroll = self.players[player].bankroll();
        let actions = Self::possible_actions(bankroll, bet, &self.hands[player]);
        let action = self.players[player].choose_action(&self.hands[player], actions.as_slice());
        match action {
            Action::Nothing => (action, None),
            Action::Stand => (action, Some(false)),
            Action::Split => (action, Some(true)),
            Action::Hit => {
                match self.deck.draw() {
                    Some(card) => {
                        self.hands[player].stack(card);
                        assert(self.hands_view() =~= old(self).hands_view().update(
                            player as int,
                            old(self).hands_view()[player as int].push(card),
                        ));
                        (action, Some(true))
                    },
                    None => (action, None),
                }
            },
            Action::DoubleDown => {
                match self.deck.draw() {
                    Some(card) => {
                        double_down_hand.stack(card);
                        (action, Some(true))
                    },
                    None => (action, None),
                }
            },
        }
    }

    /// One action of a player's turn on `hand`: a hit draws a card to the hand, a double down
    /// draws one to `double_down_hand`; a split and a hit let the turn go on, a stand ends it.
    /// Returns whether the turn goes on.
    pub fn take_action(&mut self, action: Action, hand: &mut Deck, double_down_hand: &mut Deck) -> (goes_on:
        bool)
        requires
            action != Action::Nothing,
            action == Action::Hit || action == Action::DoubleDown ==> old(self).deck_view().len() > 0,
        ensures
            goes_on == (action != Action::Stand),
            action == Action::Hit ==> final(hand)@ == old(hand)@.push(old(self).deck_view().last())
                && final(self).deck_view() == old(self).deck_view().drop_last() && final(double_down_hand)@ == old(double_down_hand)@,
            action == Action::DoubleDown ==> final(double_down_hand)@ == old(double_down_hand)@.push(
                old(self).deck_view().last(),
            ) && final(self).deck_view() == old(self).deck_view().drop_last() && final(hand)@
                == old(hand)@,
            action == Action::Stand || action == Action::Split ==> final(hand)@ == old(hand)@
                && final(double_down_hand)@ == old(double_down_hand)@ && final(self).deck_view()
                == old(self).deck_view(),
            final(self).players_view() == old(self).players_view(),
            final(self).dealer_view() == old(self).dealer_view(),
            final(self).hands_view() == old(self).hands_view(),
    {
        match action {
            Action::Hit => {
                if let Some(card) = self.deck.draw() {
                    hand.stack(card);
                }
                true
            },
            Action::Stand => false,
            Action::Split => true,
            Action::DoubleDown => {
                if let Some(card) = self.deck.draw() {
                    double_down_hand.stack(card);
                }
                true
            },
            Action::Nothing => true,
        }
    }

    /// The hand of the player at `player_index`.
    pub fn hand(&self, player_index: usize) -> (hand: &Deck)
        requires
            player_index < self.hands_view().len(),
        ensures
            hand@ == self.hands_view()[player_index as int],
    {
        &self.hands[player_index]
    }

    /// The dealer's hand.
    pub fn dealer(&self) -> (dealer: &Deck)
        ensures
            dealer@ == self.dealer_view(),
    {
        &self.dealer
    }

    /// The number of cards left in the deck.
    pub fn cards_left(&self) -> (n: usize)
        ensures
            n == self.deck_view().len(),
    {
        self.deck.len()
    }

    /// The values the hand `hand` can have: every ace counted as eleven first, then one more
    /// ace counted as one at each step.
    pub fn hand_values(hand: &Deck) -> (values: Vec<usize>)
        requires
            11 * hand@.len() <= usize::MAX,
        ensures
            values@.len() == spec_hand_values(hand@).len(),
            forall|i: int| 0 <= i < values@.len() ==> values@[i] == #[trigger] spec_hand_values(hand@)[i],
    {
        let total = hand_total_of(hand);
        let mut aces: usize = 0;
        let mut i: usize = 0;
        while i < hand.len()
            invariant
                i <= hand@.len(),
                aces == ace_count(hand@.take(i as int)),
                aces <= i,
            decreases hand@.len() - i,
        {
            assert(hand@.take(i + 1).drop_last() =~= hand@.take(i as int));
            if hand.card_at_index(i).rank == Rank::Ace {
                aces += 1;
            }
            i += 1;
        }
        assert(hand@.take(hand@.len() as int) =~= hand@);
        proof {
            lemma_hand_total_bounds(hand@);
        }
        let mut values: Vec<usize> = Vec::new();
        let mut value = total;
        let mut k: usize = 0;
        while k <= aces
            invariant
                k <= aces + 1,
                aces == ace_count(hand@),
                total == hand_total(hand@),
                10 * aces <= total,
                k <= aces ==> value == total - 10 * k,
                values@.len() == k,
                forall|j: int| 0 <= j < k ==> values@[j] == total - 10 * j,
            decreases aces + 1 - k,
        {
            values.push(value);
            if k < aces {
                value = value - 10;
            }
            k += 1;
        }
        values
    }

    /// Whether `card` is worth ten: a ten, a jack, a queen or a king.
    pub fn is_ten_card(card: Card) -> (ten: bool)
        ensures
            ten == is_ten_rank(card.rank),
    {
        match card.rank {
            Rank::Ten | Rank::Jack | Rank::Queen | Rank::King => true,
            _ => false,
        }
    }

    /// The actions open to a player with `bankroll` who bet `bet` on `hand`: hit and stand;
    /// double down where the bankroll is more than the bet; split where the first two cards
    /// have one rank.
    pub fn possible_actions(bankroll: usize, bet: usize, hand: &Deck) -> (actions: Vec<Action>)
        requires
            hand@.len() >= 2,
        ensures
            actions@ == spec_possible_actions(bankroll, bet, hand@),
    {
        let mut actions = vec![Action::Hit, Action::Stand];
        if bankroll > bet {
            actions.push(Action::DoubleDown);
        }
        if hand.card_at_index(0).rank == hand.card_at_index(1).rank {
            actions.push(Action::Split);
        }
        assert(actions@ =~= spec_possible_actions(bankroll, bet, hand@));
        actions
    }
}

} // verus!
