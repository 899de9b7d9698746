//! The rules of War: turning cards over, waging wars, gaining cards, eliminating players.

use vstd::prelude::*;

use crate::card::Card;
use crate::deck::{cards_in, lemma_cards_in_update, standard_deck, Deck};
use vstd::multiset::Multiset;
use super::players::{wage_count, war_draw_cards, war_draw_rest, WarPlayer};
use crate::text::{
    decimal,
    ordinal_string,
    ordinal_suffix,
    push_str,
    repeat_char,
    spec_uppercase_ascii,
    uppercase_ascii,
};

verus! {

// ---------------------------------------------------------------------------
// Choosing the candidates of a competition
// ---------------------------------------------------------------------------
/// The highest rank place among the cards of `comp` (-1 for none).
pub open spec fn max_rank(comp: Seq<(usize, Card)>) -> int
    decreases comp.len(),
{
    if comp.len() == 0 {
        -1
    } else {
        let m = max_rank(comp.drop_last());
        let r = comp.last().1.rank.pos() as int;
        if r > m {
            r
        } else {
            m
        }
    }
}

/// The players whose card has the highest rank, in the order of the competition.
pub open spec fn spec_candidates(comp: Seq<(usize, Card)>) -> Seq<usize> {
    comp.filter(|e: (usize, Card)| e.1.rank.pos() == max_rank(comp)).map_values(
        |e: (usize, Card)| e.0,
    )
}

/// No card of a competition outranks `max_rank`, and a non-empty competition has a card of
/// that rank.
pub proof fn lemma_max_rank(comp: Seq<(usize, Card)>)
    ensures
        forall|i: int| 0 <= i < comp.len() ==> #[trigger] comp[i].1.rank.pos() <= max_rank(comp),
        comp.len() > 0 ==> exists|i: int|
            0 <= i < comp.len() && #[trigger] comp[i].1.rank.pos() == max_rank(comp),
        comp.len() == 0 ==> max_rank(comp) == -1,
    decreases comp.len(),
{
    if comp.len() > 0 {
        lemma_max_rank(comp.drop_last());
        assert forall|i: int| 0 <= i < comp.len() implies #[trigger] comp[i].1.rank.pos()
            <= max_rank(comp) by {
            if i < comp.len() - 1 {
                assert(comp.drop_last()[i] == comp[i]);
            }
        }
        if comp.last().1.rank.pos() as int > max_rank(comp.drop_last()) {
            assert(comp[comp.len() - 1].1.rank.pos() == max_rank(comp));
        } else {
            let i = choose|i: int|
                0 <= i < comp.drop_last().len() && #[trigger] comp.drop_last()[i].1.rank.pos()
                    == max_rank(comp.drop_last());
            assert(comp[i] == comp.drop_last()[i]);
        }
    }
}

/// Whether the card of entry `j` of a competition has the highest rank in it.
pub open spec fn holds_highest(comp: Seq<(usize, Card)>, j: int) -> bool {
    &&& 0 <= j < comp.len()
    &&& forall|i: int| 0 <= i < comp.len() ==> #[trigger] comp[i].1.rank.pos() <= comp[j].1.rank.pos()
}

/// The candidates of a competition are exactly the players that turned over a card of the
/// highest rank in it.
pub proof fn candidates_hold_highest_rank(comp: Seq<(usize, Card)>)
    ensures
        forall|x: usize|
            #[trigger] spec_candidates(comp).contains(x) <==> exists|j: int|
                holds_highest(comp, j) && #[trigger] comp[j].0 == x,
{
    let pred = |e: (usize, Card)| e.1.rank.pos() == max_rank(comp);
    let f = comp.filter(pred);
    let cands = spec_candidates(comp);
    lemma_max_rank(comp);
    assert forall|x: usize| #[trigger] cands.contains(x) implies exists|j: int|
        holds_highest(comp, j) && #[trigger] comp[j].0 == x by {
        let k = choose|k: int| 0 <= k < cands.len() && cands[k] == x;
        comp.lemma_filter_pred(pred, k);
        assert(f.contains(f[k]));
        comp.lemma_filter_contains_rev(pred, f[k]);
        let j = choose|j: int| 0 <= j < comp.len() && comp[j] == f[k];
        assert(holds_highest(comp, j));
        assert(comp[j].0 == x);
    }
    assert forall|x: usize| (exists|j: int| holds_highest(comp, j) && #[trigger] comp[j].0 == x)
        implies #[trigger] cands.contains(x) by {
        let j = choose|j: int| holds_highest(comp, j) && #[trigger] comp[j].0 == x;
        let m = choose|i: int| 0 <= i < comp.len() && #[trigger] comp[i].1.rank.pos() == max_rank(comp);
        assert(comp[m].1.rank.pos() <= comp[j].1.rank.pos());
        assert(pred(comp[j]));
        comp.lemma_filter_contains(pred, j);
        let k = choose|k: int| 0 <= k < f.len() && f[k] == comp[j];
        assert(cands[k] == x);
    }
}

/// A competition with cards has at least one candidate, and never more than it has cards.
pub proof fn lemma_candidates_count(comp: Seq<(usize, Card)>)
    ensures
        spec_candidates(comp).len() <= comp.len(),
        comp.len() > 0 ==> spec_candidates(comp).len() > 0,
{
    let pred = |e: (usize, Card)| e.1.rank.pos() == max_rank(comp);
    comp.lemma_filter_len(pred);
    if comp.len() > 0 {
        lemma_max_rank(comp);
        let i = choose|i: int|
            0 <= i < comp.len() && #[trigger] comp[i].1.rank.pos() == max_rank(comp);
        comp.lemma_filter_contains(pred, i);
    }
}

// ---------------------------------------------------------------------------
// Waging war
// ---------------------------------------------------------------------------
/// The total number of cards in `hands`.
pub open spec fn total_len(hands: Seq<Seq<Card>>) -> int
    decreases hands.len(),
{
    if hands.len() == 0 {
        0
    } else {
        total_len(hands.drop_last()) + hands.last().len()
    }
}

/// Changing one hand changes the total by the change of that hand.
pub proof fn lemma_total_len_update(hands: Seq<Seq<Card>>, i: int, h: Seq<Card>)
    requires
        0 <= i < hands.len(),
    ensures
        total_len(hands.update(i, h)) == total_len(hands) - hands[i].len() + h.len(),
        total_len(hands) >= 0,
    decreases hands.len(),
{
    if i < hands.len() - 1 {
        lemma_total_len_update(hands.drop_last(), i, h);
        assert(hands.update(i, h).drop_last() =~= hands.drop_last().update(i, h));
    } else {
        assert(hands.update(i, h).drop_last() =~= hands.drop_last());
        lemma_total_len_nonneg(hands.drop_last());
    }
}

/// The total number of cards is never negative.
pub proof fn lemma_total_len_nonneg(hands: Seq<Seq<Card>>)
    ensures
        total_len(hands) >= 0,
    decreases hands.len(),
{
    if hands.len() > 0 {
        lemma_total_len_nonneg(hands.drop_last());
    }
}

/// What the candidates `cands` wage, one after the other, from `hands`: the number of cards
/// each held before waging, the cards each waged, and the hands after.
pub open spec fn draw_for(hands: Seq<Seq<Card>>, cands: Seq<usize>, n: int) -> (
    Seq<usize>,
    Seq<Seq<Card>>,
    Seq<Seq<Card>>,
)
    decreases cands.len(),
{
    if cands.len() == 0 {
        (seq![], seq![], hands)
    } else {
        let prev = draw_for(hands, cands.drop_last(), n);
        let c = cands.last() as int;
        if 0 <= c < prev.2.len() {
            let h = prev.2[c];
            (
                prev.0.push(h.len() as usize),
                prev.1.push(war_draw_cards(h, n)),
                prev.2.update(c, war_draw_rest(h, n)),
            )
        } else {
            (prev.0.push(0), prev.1.push(seq![]), prev.2)
        }
    }
}

/// The cards turned over in a war: the top card of each non-empty wager, with its player.
pub open spec fn competition_of(cands: Seq<usize>, draws: Seq<Seq<Card>>) -> Seq<(usize, Card)>
    decreases cands.len(),
{
    if cands.len() == 0 || draws.len() == 0 {
        seq![]
    } else {
        competition_of(cands.drop_last(), draws.drop_last()) + (if draws.last().len() > 0 {
            seq![(cands.last(), draws.last().last())]
        } else {
            seq![]
        })
    }
}

/// A war as recorded for the players to see: the candidates, how many cards each held, and
/// what each waged.
pub struct BattleView {
    pub candidates: Seq<usize>,
    pub hand_lengths: Seq<usize>,
    pub draws: Seq<Seq<Card>>,
}

/// The outcome of a war: the hands after it, its winner (`None` where no candidate had a card
/// to wage), the cards it gained, and the record of each battle.
pub struct WarSpec {
    pub hands: Seq<Seq<Card>>,
    pub winner: Option<usize>,
    pub gained: Seq<Card>,
    pub battles: Seq<BattleView>,
}

/// The number of cards waged in all.
pub proof fn lemma_draw_for_total(hands: Seq<Seq<Card>>, cands: Seq<usize>, n: int)
    requires
        n >= 0,
    ensures
        total_len(draw_for(hands, cands, n).2) + total_len(draw_for(hands, cands, n).1)
            == total_len(hands),
        draw_for(hands, cands, n).2.len() == hands.len(),
        draw_for(hands, cands, n).1.len() == cands.len(),
        draw_for(hands, cands, n).0.len() == cands.len(),
    decreases cands.len(),
{
    if cands.len() > 0 {
        lemma_draw_for_total(hands, cands.drop_last(), n);
        let prev = draw_for(hands, cands.drop_last(), n);
        let c = cands.last() as int;
        if 0 <= c < prev.2.len() {
            let h = prev.2[c];
            lemma_total_len_update(prev.2, c, war_draw_rest(h, n));
            assert(prev.1.push(war_draw_cards(h, n)).drop_last() =~= prev.1);
        } else {
            assert(prev.1.push(seq![]).drop_last() =~= prev.1);
        }
    }
}

/// Each card turned over comes from a wager.
pub proof fn lemma_competition_len(cands: Seq<usize>, draws: Seq<Seq<Card>>)
    ensures
        competition_of(cands, draws).len() <= total_len(draws),
    decreases cands.len(),
{
    if cands.len() > 0 && draws.len() > 0 {
        lemma_competition_len(cands.drop_last(), draws.drop_last());
        lemma_total_len_nonneg(draws.drop_last());
    } else {
        lemma_total_len_nonneg(draws);
    }
}

/// A war that goes on takes cards out of the hands.
pub proof fn lemma_war_shrinks(hands: Seq<Seq<Card>>, cands: Seq<usize>, n: int)
    requires
        n >= 0,
    ensures
        spec_candidates(competition_of(cands, draw_for(hands, cands, n).1)).len() > 1
            ==> total_len(draw_for(hands, cands, n).2) < total_len(hands),
{
    let d = draw_for(hands, cands, n);
    lemma_draw_for_total(hands, cands, n);
    lemma_competition_len(cands, d.1);
    lemma_candidates_count(competition_of(cands, d.1));
}

/// Whether candidate `k` waged cards and the top card of their wager (the last card they drew,
/// the one turned over) ranks at least as high as the top card of every other wager.
pub open spec fn holds_highest_top(cands: Seq<usize>, draws: Seq<Seq<Card>>, k: int) -> bool {
    &&& 0 <= k < cands.len()
    &&& draws[k].len() > 0
    &&& forall|j: int|
        0 <= j < cands.len() && draws[j].len() > 0 ==> #[trigger] draws[j].last().rank.pos()
            <= draws[k].last().rank.pos()
}

/// The cards turned over in a war are the top cards of the wagers that are not empty, each
/// with its candidate.
proof fn lemma_competition_tops(cands: Seq<usize>, draws: Seq<Seq<Card>>)
    requires
        draws.len() == cands.len(),
    ensures
        forall|j: int|
            0 <= j < competition_of(cands, draws).len() ==> exists|k: int|
                0 <= k < cands.len() && draws[k].len() > 0 && #[trigger] competition_of(cands, draws)[j]
                    == (cands[k], draws[k].last()),
        forall|k: int|
            0 <= k < cands.len() && #[trigger] draws[k].len() > 0 ==> exists|j: int|
                0 <= j < competition_of(cands, draws).len() && competition_of(cands, draws)[j] == (
                    cands[k],
                    draws[k].last(),
                ),
    decreases cands.len(),
{
    if cands.len() > 0 {
        let c0 = cands.drop_last();
        let d0 = draws.drop_last();
        lemma_competition_tops(c0, d0);
        let prev = competition_of(c0, d0);
        let comp = competition_of(cands, draws);
        let last = cands.len() - 1;
        assert forall|j: int| 0 <= j < comp.len() implies exists|k: int|
            0 <= k < cands.len() && draws[k].len() > 0 && #[trigger] comp[j] == (cands[k], draws[k].last()) by {
            if j < prev.len() {
                assert(comp[j] == prev[j]);
                let k = choose|k: int|
                    0 <= k < c0.len() && d0[k].len() > 0 && #[trigger] prev[j] == (c0[k], d0[k].last());
                assert(cands[k] == c0[k] && draws[k] == d0[k]);
            } else {
                assert(comp[j] == (cands[last], draws[last].last()));
            }
        }
        assert forall|k: int| 0 <= k < cands.len() && #[trigger] draws[k].len() > 0 implies exists|j: int|
            0 <= j < comp.len() && comp[j] == (cands[k], draws[k].last()) by {
            if k < last {
                assert(c0[k] == cands[k] && d0[k] == draws[k]);
                assert(d0[k].len() > 0);
                let j = choose|j: int| 0 <= j < prev.len() && prev[j] == (c0[k], d0[k].last());
                assert(comp[j] == prev[j]);
            } else {
                assert(comp[prev.len() as int] == (cands[last], draws[last].last()));
            }
        }
    }
}

/// A player goes on from a battle exactly where they are a candidate whose wager's top card
/// ranks highest.
proof fn lemma_next_are_highest_tops(cands: Seq<usize>, draws: Seq<Seq<Card>>, x: usize)
    requires
        draws.len() == cands.len(),
    ensures
        spec_candidates(competition_of(cands, draws)).contains(x) <==> exists|k: int|
            holds_highest_top(cands, draws, k) && #[trigger] cands[k] == x,
{
    let comp = competition_of(cands, draws);
    let next = spec_candidates(comp);
    lemma_competition_tops(cands, draws);
    candidates_hold_highest_rank(comp);
    if next.contains(x) {
        lemma_highest_comp_is_highest_top(cands, draws, x);
    }
    if exists|k: int| holds_highest_top(cands, draws, k) && #[trigger] cands[k] == x {
        lemma_highest_top_is_highest_comp(cands, draws, x);
    }
}

/// A candidate of the next battle is a candidate whose top card ranks highest.
proof fn lemma_highest_comp_is_highest_top(cands: Seq<usize>, draws: Seq<Seq<Card>>, x: usize)
    requires
        draws.len() == cands.len(),
        spec_candidates(competition_of(cands, draws)).contains(x),
    ensures
        exists|k: int| holds_highest_top(cands, draws, k) && #[trigger] cands[k] == x,
{
    let comp = competition_of(cands, draws);
    lemma_competition_tops(cands, draws);
    candidates_hold_highest_rank(comp);
    let j = choose|j: int| holds_highest(comp, j) && #[trigger] comp[j].0 == x;
    let k = choose|k: int|
        0 <= k < cands.len() && draws[k].len() > 0 && #[trigger] comp[j] == (cands[k], draws[k].last());
    assert forall|i: int| 0 <= i < cands.len() && draws[i].len() > 0 implies #[trigger] draws[i].last().rank.pos()
        <= draws[k].last().rank.pos() by {
        assert(draws[i].len() > 0);
        let ji = choose|ji: int| 0 <= ji < comp.len() && comp[ji] == (cands[i], draws[i].last());
        assert(comp[ji].1.rank.pos() <= comp[j].1.rank.pos());
    }
    assert(holds_highest_top(cands, draws, k) && cands[k] == x);
}

/// A candidate whose top card ranks highest goes on to the next battle.
proof fn lemma_highest_top_is_highest_comp(cands: Seq<usize>, draws: Seq<Seq<Card>>, x: usize)
    requires
        draws.len() == cands.len(),
        exists|k: int| holds_highest_top(cands, draws, k) && #[trigger] cands[k] == x,
    ensures
        spec_candidates(competition_of(cands, draws)).contains(x),
{
    let comp = competition_of(cands, draws);
    lemma_competition_tops(cands, draws);
    candidates_hold_highest_rank(comp);
    let k = choose|k: int| holds_highest_top(cands, draws, k) && #[trigger] cands[k] == x;
    assert(draws[k].len() > 0);
    let j = choose|j: int| 0 <= j < comp.len() && comp[j] == (cands[k], draws[k].last());
    assert forall|i: int| 0 <= i < comp.len() implies #[trigger] comp[i].1.rank.pos() <= comp[j].1.rank.pos() by {
        let ki = choose|ki: int|
            0 <= ki < cands.len() && draws[ki].len() > 0 && #[trigger] comp[i] == (cands[ki], draws[ki].last());
        assert(draws[ki].last().rank.pos() <= draws[k].last().rank.pos());
    }
    assert(holds_highest(comp, j) && comp[j].0 == x);
}

/// The first battle of a war is waged by its candidates, with what they drew.
proof fn lemma_war_first_battle(hands: Seq<Seq<Card>>, cands: Seq<usize>, n: int)
    requires
        n >= 0,
    ensures
        spec_war(hands, cands, n).battles.len() >= 1,
        spec_war(hands, cands, n).battles[0] == (BattleView {
            candidates: cands,
            hand_lengths: draw_for(hands, cands, n).0,
            draws: draw_for(hands, cands, n).1,
        }),
{
    let d = draw_for(hands, cands, n);
    let next = spec_candidates(competition_of(cands, d.1));
    if next.len() > 1 {
        lemma_war_shrinks(hands, cands, n);
        lemma_total_len_nonneg(d.2);
        let rest = spec_war(d.2, next, n);
        let battle = BattleView { candidates: cands, hand_lengths: d.0, draws: d.1 };
        assert((seq![battle] + rest.battles)[0] == battle);
    }
}

/// A war is decided by the top cards of the wagers (the last card each candidate drew): where
/// one battle settles it, its winner is a candidate whose top card ranks highest; where it goes
/// on, the next battle is waged by exactly the candidates whose top cards rank highest.
pub proof fn war_goes_to_the_highest_top_cards(hands: Seq<Seq<Card>>, cands: Seq<usize>, n: int)
    requires
        n >= 0,
    ensures
        ({
            let draws = draw_for(hands, cands, n).1;
            let w = spec_war(hands, cands, n);
            &&& w.battles.len() >= 1
            &&& w.battles[0].draws == draws
            &&& w.battles.len() == 1 ==> (w.winner matches Some(x) ==> exists|k: int|
                holds_highest_top(cands, draws, k) && #[trigger] cands[k] == x)
            &&& w.battles.len() > 1 ==> forall|x: usize|
                #[trigger] w.battles[1].candidates.contains(x) <==> exists|k: int|
                    holds_highest_top(cands, draws, k) && #[trigger] cands[k] == x
        }),
{
    let d = draw_for(hands, cands, n);
    lemma_draw_for_total(hands, cands, n);
    let draws = d.1;
    let next = spec_candidates(competition_of(cands, draws));
    assert forall|x: usize| next.contains(x) <==> exists|k: int|
        holds_highest_top(cands, draws, k) && #[trigger] cands[k] == x by {
        lemma_next_are_highest_tops(cands, draws, x);
    }
    lemma_war_first_battle(hands, cands, n);
    if next.len() > 1 {
        lemma_war_shrinks(hands, cands, n);
        lemma_total_len_nonneg(d.2);
        let rest = spec_war(d.2, next, n);
        lemma_war_first_battle(d.2, next, n);
        let battle = BattleView { candidates: cands, hand_lengths: d.0, draws: d.1 };
        assert(spec_war(hands, cands, n).battles == seq![battle] + rest.battles);
        assert((seq![battle] + rest.battles)[1] == rest.battles[0]);
    } else if next.len() == 1 {
        assert(next.contains(next[0]));
    }
}

/// What a war among the candidates `cands` does to `hands`, each candidate waging up to `n`
/// cards: where the cards turned over tie again, the tied players wage war once more.
pub open spec fn spec_war(hands: Seq<Seq<Card>>, cands: Seq<usize>, n: int) -> WarSpec
    decreases total_len(hands),
{
    if n < 0 {
        WarSpec { hands, winner: None, gained: seq![], battles: seq![] }
    } else {
        let d = draw_for(hands, cands, n);
        let next = spec_candidates(competition_of(cands, d.1));
        let battle = BattleView { candidates: cands, hand_lengths: d.0, draws: d.1 };
        let gained = d.1.flatten();
        if next.len() > 1 {
            proof {
                lemma_war_shrinks(hands, cands, n);
                lemma_total_len_nonneg(d.2);
            }
            let rest = spec_war(d.2, next, n);
            WarSpec {
                hands: rest.hands,
                winner: rest.winner,
                gained: gained + rest.gained,
                battles: seq![battle] + rest.battles,
            }
        } else if next.len() == 1 {
            WarSpec { hands: d.2, winner: Some(next[0]), gained, battles: seq![battle] }
        } else {
            WarSpec { hands: d.2, winner: None, gained, battles: seq![battle] }
        }
    }
}

// ---------------------------------------------------------------------------
// A round
// ---------------------------------------------------------------------------
/// A card turned over by a player at the start of a round, with the number of cards the
/// player held before.
#[derive(Copy, Clone, Debug, PartialEq, Eq, Structural)]
pub struct Turn {
    pub player: usize,
    pub hand_length: usize,
    pub card: Card,
}

/// The cards the players that are still in turn over, in player order, and the hands after.
pub open spec fn turn_over(hands: Seq<Seq<Card>>, eliminated: Seq<bool>, upto: int) -> (
    Seq<Turn>,
    Seq<Seq<Card>>,
)
    decreases upto,
{
    if upto <= 0 {
        (seq![], hands)
    } else {
        let prev = turn_over(hands, eliminated, upto - 1);
        let p = upto - 1;
        if eliminated[p] {
            prev
        } else {
            let h = prev.1[p];
            (
                prev.0.push(Turn { player: p as usize, hand_length: h.len() as usize, card: h.last() }),
                prev.1.update(p, h.drop_last()),
            )
        }
    }
}

/// The competition of a round: each card turned over, with its player.
pub open spec fn turn_competition(turns: Seq<Turn>) -> Seq<(usize, Card)> {
    turns.map_values(|t: Turn| (t.player, t.card))
}

/// The cards turned over, in order.
pub open spec fn turn_cards(turns: Seq<Turn>) -> Seq<Card> {
    turns.map_values(|t: Turn| t.card)
}

/// The outcome of a round before the gained cards are handed to its winner.
pub struct RoundSpec {
    pub hands: Seq<Seq<Card>>,
    pub turns: Seq<Turn>,
    pub battles: Seq<BattleView>,
    pub winner: Option<usize>,
    pub gained: Seq<Card>,
}

/// A round of War: every player still in turns over their top card; the highest rank wins,
/// ties wage war; the winner gains all the cards turned over and waged.
pub open spec fn spec_round(hands: Seq<Seq<Card>>, eliminated: Seq<bool>, n: int) -> RoundSpec {
    let t = turn_over(hands, eliminated, hands.len() as int);
    let comp = turn_competition(t.0);
    let cands = spec_candidates(comp);
    if cands.len() > 1 {
        let w = spec_war(t.1, cands, n);
        RoundSpec {
            hands: w.hands,
            turns: t.0,
            battles: w.battles,
            winner: w.winner,
            gained: turn_cards(t.0) + w.gained,
        }
    } else {
        RoundSpec {
            hands: t.1,
            turns: t.0,
            battles: seq![],
            winner: Some(cands[0]),
            gained: turn_cards(t.0),
        }
    }
}

/// Whether a round can be played: some player is still in, and every player still in holds a
/// card.
pub open spec fn ready(hands: Seq<Seq<Card>>, eliminated: Seq<bool>) -> bool {
    &&& exists|p: int| 0 <= p < eliminated.len() && !eliminated[p]
    &&& forall|p: int| 0 <= p < eliminated.len() && !eliminated[p] ==> #[trigger] hands[p].len() > 0
}

/// The players still in (in order) whose hands are now empty.
pub open spec fn newly_out(eliminated: Seq<bool>, hands: Seq<Seq<Card>>, upto: int) -> Seq<usize>
    decreases upto,
{
    if upto <= 0 {
        seq![]
    } else {
        newly_out(eliminated, hands, upto - 1) + (if !eliminated[upto - 1] && hands[upto - 1].len()
            == 0 {
            seq![(upto - 1) as usize]
        } else {
            seq![]
        })
    }
}

/// The players still in, in order.
pub open spec fn still_in(eliminated: Seq<bool>, upto: int) -> Seq<usize>
    decreases upto,
{
    if upto <= 0 {
        seq![]
    } else {
        still_in(eliminated, upto - 1) + (if !eliminated[upto - 1] {
            seq![(upto - 1) as usize]
        } else {
            seq![]
        })
    }
}

/// The number of bytes of `s` in UTF-8, as `str::len` gives it.
pub open spec fn byte_len(s: Seq<char>) -> usize {
    vstd::utf8::encode_utf8(s).len() as usize
}

/// `n` copies of `c`.
pub open spec fn repeated(c: char, n: int) -> Seq<char> {
    Seq::new(n as nat, |i: int| c)
}

/// The largest byte length of the names (0 for none).
pub open spec fn longest_name(names: Seq<Seq<char>>) -> usize
    decreases names.len(),
{
    if names.len() == 0 {
        0
    } else {
        let m = longest_name(names.drop_last());
        if byte_len(names.last()) > m {
            byte_len(names.last())
        } else {
            m
        }
    }
}

/// A leaderboard line: " PLACE ..... name", the dots filling `width` (`None` where the place
/// and the name are wider than that).
pub open spec fn place_line(place: nat, name: Seq<char>, width: int) -> Option<Seq<char>> {
    let p = spec_uppercase_ascii(decimal(place) + ordinal_suffix(place));
    let dots = width - byte_len(p) - byte_len(name);
    if dots < 0 {
        None
    } else {
        Some(seq![' '] + p + seq![' '] + repeated('.', dots) + seq![' '] + name + seq!['\n'])
    }
}

/// Both texts one after the other, where both are there.
pub open spec fn join_opt(a: Option<Seq<char>>, b: Option<Seq<char>>) -> Option<Seq<char>> {
    match (a, b) {
        (Some(x), Some(y)) => Some(x + y),
        _ => None,
    }
}

/// The lines of the players of `group`, all at `place`.
pub open spec fn group_lines(group: Seq<usize>, place: nat, names: Seq<Seq<char>>, width: int) -> Option<
    Seq<char>,
>
    decreases group.len(),
{
    if group.len() == 0 {
        Some(seq![])
    } else if group.last() >= names.len() {
        None
    } else {
        join_opt(
            group_lines(group.drop_last(), place, names, width),
            place_line(place, names[group.last() as int], width),
        )
    }
}

/// The lines of the groups `groups` (the last out first), the k-th group at place k + 2.
pub open spec fn groups_lines(groups: Seq<Seq<usize>>, names: Seq<Seq<char>>, width: int) -> Option<
    Seq<char>,
>
    decreases groups.len(),
{
    if groups.len() == 0 {
        Some(seq![])
    } else {
        join_opt(
            groups_lines(groups.drop_last(), names, width),
            group_lines(groups.last(), (groups.len() + 1) as nat, names, width),
        )
    }
}

/// The leaderboard of a finished game of War: the first player still in is first, then the
/// players out, the last out first, players out in the same round sharing a place. `None` where
/// there is no player, no player still in, or a line would be too wide.
pub open spec fn spec_war_leaderboard(
    names: Seq<Seq<char>>,
    eliminated: Seq<bool>,
    eliminations: Seq<Seq<usize>>,
) -> Option<Seq<char>> {
    let active = still_in(eliminated, eliminated.len() as int);
    let width = 20 + longest_name(names);
    if names.len() == 0 || active.len() == 0 || active[0] >= names.len() || width + 4
        > usize::MAX || eliminations.len() >= usize::MAX - 1 {
        None
    } else {
        let header = repeated(' ', width / 2 - 4) + seq!['L', 'E', 'A', 'D', 'E', 'R', 'B', 'O', 'A', 'R', 'D', ':', '\n']
            + repeated('-', width + 4) + seq!['\n', '\n'];
        let footer = seq!['\n'] + repeated('-', width + 4) + seq!['\n', '\n'];
        join_opt(
            join_opt(Some(header), place_line(1, names[active[0] as int], width)),
            join_opt(groups_lines(eliminations.reverse(), names, width), Some(footer)),
        )
    }
}

/// The cards each player is dealt from a deck drawn in the order `cards` (first drawn first):
/// the k-th card drawn goes to player k modulo the number of players.
pub open spec fn deal_spec(hands: Seq<Seq<Card>>, cards: Seq<Card>) -> Seq<Seq<Card>>
    decreases cards.len(),
{
    if cards.len() == 0 || hands.len() == 0 {
        hands
    } else {
        let prev = deal_spec(hands, cards.drop_last());
        let p = (cards.len() - 1) % (hands.len() as int);
        prev.update(p, prev[p].push(cards.last()))
    }
}

/// Dealing keeps the number of players.
pub proof fn lemma_deal_spec_len(hands: Seq<Seq<Card>>, cards: Seq<Card>)
    ensures
        deal_spec(hands, cards).len() == hands.len(),
    decreases cards.len(),
{
    if cards.len() > 0 && hands.len() > 0 {
        lemma_deal_spec_len(hands, cards.drop_last());
    }
}

/// The head of a leaderboard `width` wide: the centred title over a line of dashes.
fn leaderboard_header(width: usize) -> (header: String)
    requires
        8 <= width <= usize::MAX - 4,
    ensures
        header@ == repeated(' ', width / 2 - 4) + seq!['L', 'E', 'A', 'D', 'E', 'R', 'B', 'O', 'A', 'R', 'D', ':', '\n']
            + repeated('-', width + 4) + seq!['\n', '\n'],
{
    let newline = "\n";
    let title = "LEADERBOARD:\n";
    proof {
        reveal_strlit("\n");
        reveal_strlit("LEADERBOARD:\n");
    }
    let mut board = repeat_char(' ', width / 2 - 4);
    push_str(&mut board, title);
    let dashes = repeat_char('-', width + 4);
    push_str(&mut board, dashes.as_str());
    push_str(&mut board, newline);
    push_str(&mut board, newline);
    assert(board@ =~= repeated(' ', width / 2 - 4) + seq!['L', 'E', 'A', 'D', 'E', 'R', 'B', 'O', 'A', 'R', 'D', ':', '\n']
        + repeated('-', width + 4) + seq!['\n', '\n']);
    board
}

/// The foot of a leaderboard `width` wide: a blank line, a line of dashes and a blank line.
fn leaderboard_footer(width: usize) -> (footer: String)
    requires
        width <= usize::MAX - 4,
    ensures
        footer@ == seq!['\n'] + repeated('-', width + 4) + seq!['\n', '\n'],
{
    let newline = "\n";
    proof {
        reveal_strlit("\n");
    }
    let mut footer = String::new();
    push_str(&mut footer, newline);
    let dashes = repeat_char('-', width + 4);
    push_str(&mut footer, dashes.as_str());
    push_str(&mut footer, newline);
    push_str(&mut footer, newline);
    assert(footer@ =~= seq!['\n'] + repeated('-', width + 4) + seq!['\n', '\n']);
    footer
}

/// Dealing hands out every card dealt: the hands then hold their cards and the dealt ones.
pub proof fn lemma_deal_spec_keeps_cards(hands: Seq<Seq<Card>>, cards: Seq<Card>)
    requires
        hands.len() > 0,
    ensures
        cards_in(deal_spec(hands, cards)) == cards_in(hands).add(cards.to_multiset()),
    decreases cards.len(),
{
    broadcast use vstd::seq_lib::group_to_multiset_ensures;
    broadcast use vstd::multiset::group_multiset_axioms;

    if cards.len() == 0 {
        assert(cards_in(hands).add(cards.to_multiset()) =~= cards_in(hands));
    } else {
        lemma_deal_spec_keeps_cards(hands, cards.drop_last());
        lemma_deal_spec_len(hands, cards.drop_last());
        let prev = deal_spec(hands, cards.drop_last());
        let p = (cards.len() - 1) % (hands.len() as int);
        lemma_cards_in_update(prev, p, prev[p].push(cards.last()));
        assert(cards =~= cards.drop_last().push(cards.last()));
        let next = prev.update(p, prev[p].push(cards.last()));
        assert(deal_spec(hands, cards) == next);
        assert forall|x: Card| #[trigger] cards_in(next).count(x) == cards_in(hands).add(
            cards.to_multiset(),
        ).count(x) by {
            assert(cards_in(next).add(prev[p].to_multiset()).count(x) == cards_in(prev).add(
                prev[p].push(cards.last()).to_multiset(),
            ).count(x));
            assert(cards_in(prev).count(x) == cards_in(hands).add(
                cards.drop_last().to_multiset(),
            ).count(x));
        }
        assert(cards_in(deal_spec(hands, cards)) =~= cards_in(hands).add(cards.to_multiset()));
    }
}

/// Dealing the decks drawn in the orders `orders`, one after the other.
pub open spec fn deal_all(hands: Seq<Seq<Card>>, orders: Seq<Seq<Card>>) -> Seq<Seq<Card>>
    decreases orders.len(),
{
    if orders.len() == 0 {
        hands
    } else {
        deal_spec(deal_all(hands, orders.drop_last()), orders.last())
    }
}

/// Dealing decks makes and loses no card: the hands then hold their cards and every card of the
/// decks dealt.
pub proof fn dealing_keeps_cards(hands: Seq<Seq<Card>>, orders: Seq<Seq<Card>>)
    requires
        hands.len() > 0,
    ensures
        cards_in(deal_all(hands, orders)) == cards_in(hands).add(cards_in(orders)),
        deal_all(hands, orders).len() == hands.len(),
    decreases orders.len(),
{
    broadcast use vstd::multiset::group_multiset_axioms;

    if orders.len() == 0 {
        assert(cards_in(hands).add(cards_in(orders)) =~= cards_in(hands));
    } else {
        dealing_keeps_cards(hands, orders.drop_last());
        lemma_deal_spec_keeps_cards(deal_all(hands, orders.drop_last()), orders.last());
        lemma_deal_spec_len(deal_all(hands, orders.drop_last()), orders.last());
        assert(cards_in(deal_all(hands, orders)) =~= cards_in(hands).add(cards_in(orders)));
    }
}

/// A war as recorded for the players to see.
pub struct Battle {
    /// The players waging the war.
    pub candidates: Vec<usize>,
    /// How many cards each held before waging.
    pub hand_lengths: Vec<usize>,
    /// What each waged (its top card is the one turned over).
    pub draws: Vec<Deck>,
}

impl View for Battle {
    type V = BattleView;

    open spec fn view(&self) -> BattleView {
        BattleView {
            candidates: self.candidates@,
            hand_lengths: self.hand_lengths@,
            draws: self.draws@.map_values(|d: Deck| d@),
        }
    }
}

/// The records of a list of wars.
pub open spec fn battle_views(battles: Seq<Battle>) -> Seq<BattleView> {
    battles.map_values(|b: Battle| b@)
}

/// What happened in a round, for the players to see.
pub struct RoundReport {
    /// The cards turned over at the start of the round.
    pub turns: Vec<Turn>,
    /// The wars waged, in order.
    pub battles: Vec<Battle>,
    /// The winner of the round (`None` where the last war had no cards to wage).
    pub winner: Option<usize>,
    /// The cards gained by the winner, before they are shuffled under the winner's hand.
    pub gained: Deck,
    /// The players that ran out of cards this round.
    pub eliminated: Vec<usize>,
}

/// A game of War.
pub struct War {
    players: Vec<WarPlayer>,
    amount_of_cards_to_draw_during_war: usize,
    /// Which players are out.
    eliminated: Vec<bool>,
    /// The players that ran out of cards, round by round.
    eliminations: Vec<Vec<usize>>,
}

/// The hands of a list of players.
pub open spec fn hands_of(players: Seq<WarPlayer>) -> Seq<Seq<Card>> {
    players.map_values(|p: WarPlayer| p.hand_of())
}

/// The names of a list of players.
pub open spec fn names_of(players: Seq<WarPlayer>) -> Seq<Seq<char>> {
    players.map_values(|p: WarPlayer| p.name_of())
}

/// Which of a list of players are persons at the terminal.
pub open spec fn informs_of(players: Seq<WarPlayer>) -> Seq<bool> {
    players.map_values(|p: WarPlayer| p.inform())
}

/// The players of a competition are among the candidates that waged.
pub proof fn lemma_competition_valid(cands: Seq<usize>, draws: Seq<Seq<Card>>, bound: int)
    requires
        forall|i: int| 0 <= i < cands.len() ==> #[trigger] cands[i] < bound,
    ensures
        forall|j: int|
            0 <= j < competition_of(cands, draws).len() ==> #[trigger] competition_of(
                cands,
                draws,
            )[j].0 < bound,
    decreases cands.len(),
{
    if cands.len() > 0 && draws.len() > 0 {
        lemma_competition_valid(cands.drop_last(), draws.drop_last(), bound);
        let prev = competition_of(cands.drop_last(), draws.drop_last());
        assert forall|j: int|
            0 <= j < competition_of(cands, draws).len() implies #[trigger] competition_of(
            cands,
            draws,
        )[j].0 < bound by {
            if j < prev.len() {
                assert(competition_of(cands, draws)[j] == prev[j]);
            } else {
                assert(cands[cands.len() - 1] < bound);
            }
        }
    }
}

/// The candidates of a competition are among its players.
pub proof fn lemma_candidates_valid(comp: Seq<(usize, Card)>, bound: int)
    requires
        forall|i: int| 0 <= i < comp.len() ==> #[trigger] comp[i].0 < bound,
    ensures
        forall|j: int|
            0 <= j < spec_candidates(comp).len() ==> #[trigger] spec_candidates(comp)[j] < bound,
{
    let pred = |e: (usize, Card)| e.1.rank.pos() == max_rank(comp);
    let f = comp.filter(pred);
    assert forall|j: int| 0 <= j < spec_candidates(comp).len() implies #[trigger] spec_candidates(
        comp,
    )[j] < bound by {
        assert(f.contains(f[j]));
        comp.lemma_filter_contains_rev(pred, f[j]);
        let i = choose|i: int| 0 <= i < comp.len() && comp[i] == f[j];
        assert(comp[i].0 < bound);
    }
}

/// A war keeps the number of players, and its winner is one of them.
pub proof fn lemma_war_valid(hands: Seq<Seq<Card>>, cands: Seq<usize>, n: int)
    requires
        n >= 0,
        forall|i: int| 0 <= i < cands.len() ==> #[trigger] cands[i] < hands.len(),
    ensures
        spec_war(hands, cands, n).hands.len() == hands.len(),
        spec_war(hands, cands, n).winner matches Some(w) ==> w < hands.len(),
    decreases total_len(hands),
{
    let d = draw_for(hands, cands, n);
    lemma_draw_for_total(hands, cands, n);
    let comp = competition_of(cands, d.1);
    lemma_competition_valid(cands, d.1, hands.len() as int);
    lemma_candidates_valid(comp, hands.len() as int);
    let next = spec_candidates(comp);
    if next.len() > 1 {
        lemma_war_shrinks(hands, cands, n);
        lemma_total_len_nonneg(d.2);
        lemma_war_valid(d.2, next, n);
    }
}

// ---------------------------------------------------------------------------
// No card is made or lost
// ---------------------------------------------------------------------------
/// The cards a player wages and the cards left in their hand are the cards they held.
pub proof fn lemma_war_draw_keeps_cards(hand: Seq<Card>, n: int)
    requires
        n >= 0,
    ensures
        war_draw_cards(hand, n).to_multiset().add(war_draw_rest(hand, n).to_multiset())
            == hand.to_multiset(),
{
    broadcast use vstd::seq_lib::lemma_multiset_commutative;

    let k = hand.len() - wage_count(hand, n);
    let top = hand.subrange(k, hand.len() as int);
    top.lemma_reverse_to_multiset();
    assert(hand =~= hand.take(k) + top);
    assert(war_draw_cards(hand, n).to_multiset().add(war_draw_rest(hand, n).to_multiset())
        =~= hand.to_multiset());
}

/// The cards waged by the candidates and the cards left in the hands are the cards the hands
/// held.
pub proof fn lemma_draw_for_keeps_cards(hands: Seq<Seq<Card>>, cands: Seq<usize>, n: int)
    requires
        n >= 0,
    ensures
        cards_in(draw_for(hands, cands, n).2).add(draw_for(hands, cands, n).1.flatten().to_multiset())
            == cards_in(hands),
    decreases cands.len(),
{
    broadcast use vstd::seq_lib::lemma_multiset_commutative;
    broadcast use vstd::multiset::group_multiset_axioms;

    if cands.len() == 0 {
        assert(Seq::<Seq<Card>>::empty().flatten() =~= Seq::<Card>::empty());
        assert(Seq::<Card>::empty().to_multiset() =~= Multiset::empty()) by {
            broadcast use vstd::seq_lib::group_to_multiset_ensures;
        }
        assert(cards_in(hands).add(Multiset::empty()) =~= cards_in(hands));
    } else {
        lemma_draw_for_keeps_cards(hands, cands.drop_last(), n);
        let prev = draw_for(hands, cands.drop_last(), n);
        let d = draw_for(hands, cands, n);
        let c = cands.last() as int;
        if 0 <= c < prev.2.len() {
            let h = prev.2[c];
            let drawn = war_draw_cards(h, n);
            let rest = war_draw_rest(h, n);
            lemma_war_draw_keeps_cards(h, n);
            lemma_cards_in_update(prev.2, c, rest);
            prev.1.lemma_flatten_push(drawn);
            assert(d.1.flatten() == prev.1.flatten() + drawn);
            assert forall|x: Card| #[trigger] cards_in(d.2).add(d.1.flatten().to_multiset()).count(x)
                == cards_in(hands).count(x) by {
                assert(cards_in(d.2).add(h.to_multiset()).count(x) == cards_in(prev.2).add(
                    rest.to_multiset(),
                ).count(x));
                assert(drawn.to_multiset().add(rest.to_multiset()).count(x) == h.to_multiset().count(x));
                assert(cards_in(prev.2).add(prev.1.flatten().to_multiset()).count(x) == cards_in(
                    hands,
                ).count(x));
            }
            assert(cards_in(d.2).add(d.1.flatten().to_multiset()) =~= cards_in(hands));
        } else {
            prev.1.lemma_flatten_push(Seq::<Card>::empty());
            assert(prev.1.flatten() + Seq::<Card>::empty() =~= prev.1.flatten());
        }
    }
}

/// A war makes and loses no card: the cards gained and the cards left in the hands are the
/// cards the hands held.
pub proof fn lemma_war_keeps_cards(hands: Seq<Seq<Card>>, cands: Seq<usize>, n: int)
    requires
        n >= 0,
    ensures
        cards_in(spec_war(hands, cands, n).hands).add(spec_war(hands, cands, n).gained.to_multiset())
            == cards_in(hands),
    decreases total_len(hands),
{
    broadcast use vstd::seq_lib::lemma_multiset_commutative;
    broadcast use vstd::multiset::group_multiset_axioms;

    let d = draw_for(hands, cands, n);
    lemma_draw_for_keeps_cards(hands, cands, n);
    let next = spec_candidates(competition_of(cands, d.1));
    if next.len() > 1 {
        lemma_war_shrinks(hands, cands, n);
        lemma_total_len_nonneg(d.2);
        lemma_war_keeps_cards(d.2, next, n);
        let rest = spec_war(d.2, next, n);
        let w = spec_war(hands, cands, n);
        assert(w.gained == d.1.flatten() + rest.gained);
        assert(cards_in(w.hands).add(w.gained.to_multiset()) =~= cards_in(hands));
    }
}

/// The cards turned over and the cards left in the hands are the cards the hands held, where
/// every player still in holds a card.
pub proof fn lemma_turn_over_keeps_cards(hands: Seq<Seq<Card>>, eliminated: Seq<bool>, upto: int)
    requires
        0 <= upto <= hands.len(),
        eliminated.len() == hands.len(),
        forall|p: int| 0 <= p < hands.len() && !eliminated[p] ==> #[trigger] hands[p].len() > 0,
    ensures
        cards_in(turn_over(hands, eliminated, upto).1).add(
            turn_cards(turn_over(hands, eliminated, upto).0).to_multiset(),
        ) == cards_in(hands),
    decreases upto,
{
    broadcast use vstd::seq_lib::group_to_multiset_ensures;
    broadcast use vstd::multiset::group_multiset_axioms;

    if upto == 0 {
        assert(turn_cards(Seq::<Turn>::empty()) =~= Seq::<Card>::empty());
        assert(cards_in(hands).add(Seq::<Card>::empty().to_multiset()) =~= cards_in(hands));
    } else {
        lemma_turn_over_keeps_cards(hands, eliminated, upto - 1);
        lemma_turn_over(hands, eliminated, upto - 1);
        let prev = turn_over(hands, eliminated, upto - 1);
        let p = upto - 1;
        if !eliminated[p] {
            let h = prev.1[p];
            assert(h == hands[p]);
            let t = turn_over(hands, eliminated, upto);
            lemma_cards_in_update(prev.1, p, h.drop_last());
            assert(h =~= h.drop_last().push(h.last()));
            assert(turn_cards(t.0) =~= turn_cards(prev.0).push(h.last()));
            assert forall|x: Card| #[trigger] cards_in(t.1).add(turn_cards(t.0).to_multiset()).count(x)
                == cards_in(hands).count(x) by {
                assert(cards_in(t.1).add(h.to_multiset()).count(x) == cards_in(prev.1).add(
                    h.drop_last().to_multiset(),
                ).count(x));
            }
            assert(cards_in(t.1).add(turn_cards(t.0).to_multiset()) =~= cards_in(hands));
        }
    }
}

/// A round makes and loses no card: the cards its winner gains and the cards left in the hands
/// are the cards the hands held.
pub proof fn round_keeps_cards(hands: Seq<Seq<Card>>, eliminated: Seq<bool>, n: int)
    requires
        ready(hands, eliminated),
        eliminated.len() == hands.len(),
        n >= 0,
    ensures
        cards_in(spec_round(hands, eliminated, n).hands).add(
            spec_round(hands, eliminated, n).gained.to_multiset(),
        ) == cards_in(hands),
{
    broadcast use vstd::seq_lib::lemma_multiset_commutative;
    broadcast use vstd::multiset::group_multiset_axioms;

    let t = turn_over(hands, eliminated, hands.len() as int);
    lemma_turn_over_keeps_cards(hands, eliminated, hands.len() as int);
    let cands = spec_candidates(turn_competition(t.0));
    if cands.len() > 1 {
        lemma_war_keeps_cards(t.1, cands, n);
        let s = spec_round(hands, eliminated, n);
        assert(cards_in(s.hands).add(s.gained.to_multiset()) =~= cards_in(hands));
    }
}

/// Whether the hands `after` are what a round with a winner leaves of the hands `before`
/// (see `spec_round`): the winner's hand holds the gained cards, in some order, under the cards
/// it held, and the other hands are as the round left them.
pub open spec fn won_round(
    before: Seq<Seq<Card>>,
    eliminated: Seq<bool>,
    n: int,
    after: Seq<Seq<Card>>,
) -> bool {
    let s = spec_round(before, eliminated, n);
    &&& ready(before, eliminated)
    &&& eliminated.len() == before.len()
    &&& before.len() <= usize::MAX
    &&& n >= 0
    &&& s.winner matches Some(w) && {
        &&& w < s.hands.len()
        &&& after.len() == s.hands.len()
        &&& forall|p: int| 0 <= p < s.hands.len() && p != w ==> #[trigger] after[p] == s.hands[p]
        &&& after[w as int].len() == s.gained.len() + s.hands[w as int].len()
        &&& after[w as int].take(s.gained.len() as int).to_multiset() == s.gained.to_multiset()
        &&& after[w as int].skip(s.gained.len() as int) == s.hands[w as int]
    }
}

/// A game of War makes and loses no card: over any run of rounds that each have a winner,
/// the hands at the end hold the cards the hands held at the start.
pub proof fn game_keeps_cards(states: Seq<Seq<Seq<Card>>>, eliminated: Seq<Seq<bool>>, n: int)
    requires
        states.len() >= 1,
        eliminated.len() == states.len() - 1,
        forall|i: int|
            0 <= i < states.len() - 1 ==> won_round(
                #[trigger] states[i],
                eliminated[i],
                n,
                states[i + 1],
            ),
    ensures
        cards_in(states.last()) == cards_in(states[0]),
    decreases states.len(),
{
    if states.len() > 1 {
        let k = states.len() - 1;
        assert forall|i: int| 0 <= i < states.drop_last().len() - 1 implies won_round(
            #[trigger] states.drop_last()[i],
            eliminated.drop_last()[i],
            n,
            states.drop_last()[i + 1],
        ) by {
            assert(won_round(states[i], eliminated[i], n, states[i + 1]));
        }
        game_keeps_cards(states.drop_last(), eliminated.drop_last(), n);
        assert(won_round(states[k - 1], eliminated[k - 1], n, states[k]));
        let before = states[k - 1];
        let s = spec_round(before, eliminated[k - 1], n);
        round_keeps_cards(before, eliminated[k - 1], n);
        let w = s.winner->0;
        lemma_gain_keeps_cards(s.hands, states[k], w as int, s.gained);
    }
}

/// Only players still in turn cards over, and the players out keep their hands.
proof fn lemma_turn_over_skips_out(hands: Seq<Seq<Card>>, eliminated: Seq<bool>, upto: int)
    requires
        0 <= upto <= hands.len(),
        hands.len() <= usize::MAX,
        eliminated.len() == hands.len(),
    ensures
        forall|p: int|
            0 <= p < hands.len() && eliminated[p] ==> #[trigger] turn_over(hands, eliminated, upto).1[p]
                == hands[p],
        forall|i: int|
            0 <= i < turn_over(hands, eliminated, upto).0.len() ==> !eliminated[#[trigger] turn_over(
                hands,
                eliminated,
                upto,
            ).0[i].player as int],
    decreases upto,
{
    if upto > 0 {
        lemma_turn_over_skips_out(hands, eliminated, upto - 1);
        lemma_turn_over(hands, eliminated, upto - 1);
        let prev = turn_over(hands, eliminated, upto - 1);
        let t = turn_over(hands, eliminated, upto);
        if !eliminated[upto - 1] {
            assert forall|i: int| 0 <= i < t.0.len() implies !eliminated[#[trigger] t.0[i].player as int] by {
                if i < prev.0.len() {
                    assert(t.0[i] == prev.0[i]);
                } else {
                    assert(t.0[i].player == (upto - 1) as usize);
                }
            }
        }
    }
}

/// Only the candidates of a war wage cards: the other hands stay as they were.
proof fn lemma_draw_for_spares_others(hands: Seq<Seq<Card>>, cands: Seq<usize>, n: int)
    requires
        n >= 0,
    ensures
        forall|p: int|
            0 <= p < hands.len() && !cands.contains(p as usize) ==> #[trigger] draw_for(hands, cands, n).2[p]
                == hands[p],
    decreases cands.len(),
{
    if cands.len() > 0 {
        lemma_draw_for_spares_others(hands, cands.drop_last(), n);
        lemma_draw_for_total(hands, cands.drop_last(), n);
        assert forall|p: int|
            0 <= p < hands.len() && !cands.contains(p as usize) implies #[trigger] draw_for(
            hands,
            cands,
            n,
        ).2[p] == hands[p] by {
            if cands.drop_last().contains(p as usize) {
                let k = choose|k: int| 0 <= k < cands.drop_last().len() && cands.drop_last()[k] == p as usize;
                assert(cands[k] == p as usize);
            }
            assert(cands[cands.len() - 1] != p as usize);
        }
    }
}

/// The players of the cards turned over in a war are among its candidates.
proof fn lemma_competition_players(cands: Seq<usize>, draws: Seq<Seq<Card>>)
    ensures
        forall|j: int|
            0 <= j < competition_of(cands, draws).len() ==> cands.contains(
                #[trigger] competition_of(cands, draws)[j].0,
            ),
    decreases cands.len(),
{
    if cands.len() > 0 && draws.len() > 0 {
        lemma_competition_players(cands.drop_last(), draws.drop_last());
        let prev = competition_of(cands.drop_last(), draws.drop_last());
        assert forall|j: int| 0 <= j < competition_of(cands, draws).len() implies cands.contains(
            #[trigger] competition_of(cands, draws)[j].0,
        ) by {
            if j < prev.len() {
                assert(competition_of(cands, draws)[j] == prev[j]);
                let k = choose|k: int| 0 <= k < cands.drop_last().len() && cands.drop_last()[k] == prev[j].0;
                assert(cands[k] == prev[j].0);
            } else {
                assert(cands[cands.len() - 1] == competition_of(cands, draws)[j].0);
            }
        }
    }
}

/// A war leaves the hands of the players not waging it as they were, and its winner is one of
/// its candidates.
proof fn lemma_war_spares_others(hands: Seq<Seq<Card>>, cands: Seq<usize>, n: int)
    requires
        n >= 0,
    ensures
        forall|p: int|
            0 <= p < hands.len() && !cands.contains(p as usize) ==> #[trigger] spec_war(hands, cands, n).hands[p]
                == hands[p],
        spec_war(hands, cands, n).winner matches Some(w) ==> cands.contains(w),
        spec_war(hands, cands, n).hands.len() == hands.len(),
    decreases total_len(hands),
{
    let d = draw_for(hands, cands, n);
    lemma_draw_for_spares_others(hands, cands, n);
    lemma_draw_for_total(hands, cands, n);
    let comp = competition_of(cands, d.1);
    let next = spec_candidates(comp);
    candidates_hold_highest_rank(comp);
    lemma_competition_players(cands, d.1);
    assert forall|x: usize| next.contains(x) implies cands.contains(x) by {
        let j = choose|j: int| holds_highest(comp, j) && #[trigger] comp[j].0 == x;
        assert(cands.contains(comp[j].0));
    }
    if next.len() > 1 {
        lemma_war_shrinks(hands, cands, n);
        lemma_total_len_nonneg(d.2);
        lemma_war_spares_others(d.2, next, n);
    } else if next.len() == 1 {
        assert(next.contains(next[0]));
    }
}

/// A round leaves the hands of the players out as they were, and its winner is a player still
/// in; so players out that hold no card hold none after a round.
pub proof fn out_players_stay_empty(
    hands: Seq<Seq<Card>>,
    eliminated: Seq<bool>,
    n: int,
    after: Seq<Seq<Card>>,
)
    requires
        won_round(hands, eliminated, n, after),
        forall|p: int| 0 <= p < hands.len() && eliminated[p] ==> #[trigger] hands[p].len() == 0,
    ensures
        after.len() == hands.len(),
        forall|p: int| 0 <= p < after.len() && eliminated[p] ==> #[trigger] after[p].len() == 0,
{
    let t = turn_over(hands, eliminated, hands.len() as int);
    lemma_turn_over(hands, eliminated, hands.len() as int);
    lemma_turn_over_skips_out(hands, eliminated, hands.len() as int);
    let comp = turn_competition(t.0);
    let cands = spec_candidates(comp);
    candidates_hold_highest_rank(comp);
    let s = spec_round(hands, eliminated, n);
    let w = s.winner->0;
    assert forall|x: usize| cands.contains(x) implies !eliminated[x as int] by {
        let j = choose|j: int| holds_highest(comp, j) && #[trigger] comp[j].0 == x;
        assert(comp[j].0 == t.0[j].player);
    }
    lemma_candidates_count(comp);
    if cands.len() > 1 {
        lemma_war_spares_others(t.1, cands, n);
    } else {
        assert(cands.contains(cands[0]));
    }
    assert(!eliminated[w as int]);
    assert(s.hands.len() == hands.len());
    assert(after.len() == hands.len());
    assert forall|p: int| 0 <= p < after.len() && eliminated[p] implies #[trigger] after[p].len() == 0 by {
        assert(p != w);
        assert(after[p] == s.hands[p]);
        if cands.len() > 1 {
            assert(!cands.contains(p as usize));
        }
        assert(t.1[p] == hands[p]);
    }
}

/// Whether `now` is who is out after a round that left the hands `hands`, where `before` was
/// who was out: the players out before, and the players left without cards.
pub open spec fn goes_out(before: Seq<bool>, hands: Seq<Seq<Card>>, now: Seq<bool>) -> bool {
    &&& now.len() == before.len()
    &&& forall|p: int| 0 <= p < before.len() ==> #[trigger] now[p] == (before[p] || hands[p].len() == 0)
}

/// A whole game of War makes and loses no card: where every player is in at the start and
/// every round has a winner (the players left without cards going out, as `play_round` does),
/// once one player alone is in, that player holds every card the hands held at the start, and
/// every other hand is empty.
pub proof fn game_ends_with_every_card_in_one_hand(
    states: Seq<Seq<Seq<Card>>>,
    eliminated: Seq<Seq<bool>>,
    n: int,
    w: int,
)
    requires
        states.len() >= 1,
        eliminated.len() == states.len(),
        forall|i: int| 0 <= i < states.len() ==> (#[trigger] eliminated[i]).len() == states[0].len(),
        forall|p: int| 0 <= p < states[0].len() ==> !#[trigger] eliminated[0][p],
        forall|i: int|
            0 <= i < states.len() - 1 ==> won_round(
                #[trigger] states[i],
                eliminated[i],
                n,
                states[i + 1],
            ),
        forall|i: int|
            0 <= i < states.len() - 1 ==> #[trigger] goes_out(eliminated[i], states[i + 1], eliminated[i + 1]),
        0 <= w < states[0].len(),
        !eliminated.last()[w],
        forall|p: int| 0 <= p < states[0].len() && p != w ==> #[trigger] eliminated.last()[p],
    ensures
        states.last()[w].to_multiset() == cards_in(states[0]),
        forall|p: int| 0 <= p < states[0].len() && p != w ==> #[trigger] states.last()[p].len() == 0,
{
    assert forall|i: int| 0 <= i < states.len() - 1 implies won_round(
        #[trigger] states[i],
        eliminated.drop_last()[i],
        n,
        states[i + 1],
    ) by {
        assert(won_round(states[i], eliminated[i], n, states[i + 1]));
    }
    game_keeps_cards(states, eliminated.drop_last(), n);
    lemma_out_players_empty_all_game(states, eliminated, n, states.len() - 1);
    let last = states.last();
    assert(last.len() == states[0].len());
    last_player_holds_every_card(last, eliminated.last(), w);
}

/// Along a game, the hands keep their number, and the players out hold no card.
proof fn lemma_out_players_empty_all_game(
    states: Seq<Seq<Seq<Card>>>,
    eliminated: Seq<Seq<bool>>,
    n: int,
    k: int,
)
    requires
        0 <= k < states.len(),
        eliminated.len() == states.len(),
        forall|i: int| 0 <= i < states.len() ==> (#[trigger] eliminated[i]).len() == states[0].len(),
        forall|p: int| 0 <= p < states[0].len() ==> !#[trigger] eliminated[0][p],
        forall|i: int|
            0 <= i < states.len() - 1 ==> won_round(
                #[trigger] states[i],
                eliminated[i],
                n,
                states[i + 1],
            ),
        forall|i: int|
            0 <= i < states.len() - 1 ==> #[trigger] goes_out(eliminated[i], states[i + 1], eliminated[i + 1]),
    ensures
        states[k].len() == states[0].len(),
        forall|p: int| 0 <= p < states[0].len() && eliminated[k][p] ==> #[trigger] states[k][p].len() == 0,
    decreases k,
{
    if k > 0 {
        lemma_out_players_empty_all_game(states, eliminated, n, k - 1);
        assert(won_round(states[k - 1], eliminated[k - 1], n, states[k]));
        out_players_stay_empty(states[k - 1], eliminated[k - 1], n, states[k]);
        assert(goes_out(eliminated[k - 1], states[k], eliminated[k]));
    }
}

/// At the end of a game, where every player who is out holds no card and one player alone is
/// still in, that player holds every card of the game.
pub proof fn last_player_holds_every_card(hands: Seq<Seq<Card>>, eliminated: Seq<bool>, w: int)
    requires
        eliminated.len() == hands.len(),
        0 <= w < hands.len(),
        !eliminated[w],
        forall|p: int| 0 <= p < hands.len() && p != w ==> #[trigger] eliminated[p],
        forall|p: int| 0 <= p < hands.len() && eliminated[p] ==> #[trigger] hands[p].len() == 0,
    ensures
        hands[w].to_multiset() == cards_in(hands),
    decreases hands.len(),
{
    broadcast use vstd::seq_lib::group_to_multiset_ensures;
    broadcast use vstd::multiset::group_multiset_axioms;

    let empty: Seq<Card> = seq![];
    let cleared = hands.update(w, empty);
    lemma_cards_in_update(hands, w, empty);
    assert forall|i: int| 0 <= i < cleared.len() implies #[trigger] cleared[i].len() == 0 by {
        if i != w {
            assert(eliminated[i]);
        }
    }
    lemma_no_cards(cleared);
    assert(empty.to_multiset() =~= Multiset::empty());
    assert forall|x: Card| #[trigger] cards_in(hands).count(x) == hands[w].to_multiset().count(x) by {
        assert(cards_in(cleared).add(hands[w].to_multiset()).count(x) == cards_in(hands).add(
            empty.to_multiset(),
        ).count(x));
    }
    assert(cards_in(hands) =~= hands[w].to_multiset());
}

/// Hands that are all empty hold no card.
proof fn lemma_no_cards(hands: Seq<Seq<Card>>)
    requires
        forall|i: int| 0 <= i < hands.len() ==> #[trigger] hands[i].len() == 0,
    ensures
        cards_in(hands) == Multiset::<Card>::empty(),
    decreases hands.len(),
{
    broadcast use vstd::seq_lib::group_to_multiset_ensures;
    broadcast use vstd::multiset::group_multiset_axioms;

    if hands.len() > 0 {
        assert forall|i: int| 0 <= i < hands.drop_last().len() implies #[trigger] hands.drop_last()[i].len()
            == 0 by {
            assert(hands.drop_last()[i] == hands[i]);
        }
        lemma_no_cards(hands.drop_last());
        assert(hands.last().len() == 0);
        assert(hands.last().to_multiset() =~= Multiset::empty());
        assert(cards_in(hands) =~= Multiset::empty());
    }
}

/// Putting the gained cards under the winner's hand adds them to the cards of the hands.
pub proof fn lemma_gain_keeps_cards(
    hands: Seq<Seq<Card>>,
    after: Seq<Seq<Card>>,
    w: int,
    gained: Seq<Card>,
)
    requires
        0 <= w < hands.len(),
        after.len() == hands.len(),
        forall|p: int| 0 <= p < hands.len() && p != w ==> #[trigger] after[p] == hands[p],
        after[w].len() == gained.len() + hands[w].len(),
        after[w].take(gained.len() as int).to_multiset() == gained.to_multiset(),
        after[w].skip(gained.len() as int) == hands[w],
    ensures
        cards_in(after) == cards_in(hands).add(gained.to_multiset()),
{
    broadcast use vstd::seq_lib::lemma_multiset_commutative;
    broadcast use vstd::multiset::group_multiset_axioms;

    let h = after[w];
    assert(after =~= hands.update(w, h));
    lemma_cards_in_update(hands, w, h);
    assert(h =~= h.take(gained.len() as int) + h.skip(gained.len() as int));
    assert forall|x: Card| #[trigger] cards_in(after).count(x) == cards_in(hands).add(
        gained.to_multiset(),
    ).count(x) by {
        assert(cards_in(after).add(hands[w].to_multiset()).count(x) == cards_in(hands).add(
            h.to_multiset(),
        ).count(x));
    }
    assert(cards_in(after) =~= cards_in(hands).add(gained.to_multiset()));
}

/// The text listing `items`: "a", "a and b", or "a, b, and c".
pub open spec fn list_text(items: Seq<Seq<char>>) -> Seq<char> {
    if items.len() == 1 {
        items[0]
    } else if items.len() == 2 {
        items[0] + seq![' ', 'a', 'n', 'd', ' '] + items[1]
    } else {
        comma_part(items, items.len() - 1) + seq!['a', 'n', 'd', ' '] + items.last()
    }
}

/// The first `k` items, each followed by ", ".
pub open spec fn comma_part(items: Seq<Seq<char>>, k: int) -> Seq<char>
    decreases k,
{
    if k <= 0 {
        seq![]
    } else {
        comma_part(items, k - 1) + items[k - 1] + seq![',', ' ']
    }
}

/// Turning cards over keeps the number of players and leaves the players not reached yet as
/// they were.
pub proof fn lemma_turn_over(hands: Seq<Seq<Card>>, eliminated: Seq<bool>, upto: int)
    requires
        0 <= upto <= hands.len(),
        eliminated.len() == hands.len(),
    ensures
        turn_over(hands, eliminated, upto).1.len() == hands.len(),
        forall|q: int|
            upto <= q < hands.len() ==> #[trigger] turn_over(hands, eliminated, upto).1[q]
                == hands[q],
        forall|i: int|
            0 <= i < turn_over(hands, eliminated, upto).0.len() ==> #[trigger] turn_over(
                hands,
                eliminated,
                upto,
            ).0[i].player < upto,
        (exists|p: int| 0 <= p < upto && !eliminated[p]) ==> turn_over(
            hands,
            eliminated,
            upto,
        ).0.len() > 0,
    decreases upto,
{
    if upto > 0 {
        lemma_turn_over(hands, eliminated, upto - 1);
        if exists|p: int| 0 <= p < upto && !eliminated[p] {
            if !eliminated[upto - 1] {
            } else {
                let p = choose|p: int| 0 <= p < upto && !eliminated[p];
                assert(p < upto - 1);
            }
        }
    }
}

/// Once a line is missing, the lines of a longer group are missing too.
pub proof fn lemma_group_lines_none(group: Seq<usize>, place: nat, names: Seq<Seq<char>>, width: int, i: int)
    requires
        0 <= i <= group.len(),
        group_lines(group.take(i), place, names, width) is None,
    ensures
        group_lines(group, place, names, width) is None,
    decreases group.len() - i,
{
    if i < group.len() {
        assert(group.take(i + 1).drop_last() =~= group.take(i));
        lemma_group_lines_none(group, place, names, width, i + 1);
    } else {
        assert(group.take(i) =~= group);
    }
}

/// Once a group's lines are missing, the lines of more groups are missing too.
pub proof fn lemma_groups_lines_none(groups: Seq<Seq<usize>>, names: Seq<Seq<char>>, width: int, i: int)
    requires
        0 <= i <= groups.len(),
        groups_lines(groups.take(i), names, width) is None,
    ensures
        groups_lines(groups, names, width) is None,
    decreases groups.len() - i,
{
    if i < groups.len() {
        assert(groups.take(i + 1).drop_last() =~= groups.take(i));
        lemma_groups_lines_none(groups, names, width, i + 1);
    } else {
        assert(groups.take(i) =~= groups);
    }
}

/// Changing one player changes only that player's hand, name and kind.
pub proof fn lemma_players_update(players: Seq<WarPlayer>, i: int, p: WarPlayer)
    requires
        0 <= i < players.len(),
    ensures
        hands_of(players.update(i, p)) == hands_of(players).update(i, p.hand_of()),
        names_of(players.update(i, p)) == names_of(players).update(i, p.name_of()),
        informs_of(players.update(i, p)) == informs_of(players).update(i, p.inform()),
{
    assert(hands_of(players.update(i, p)) =~= hands_of(players).update(i, p.hand_of()));
    assert(names_of(players.update(i, p)) =~= names_of(players).update(i, p.name_of()));
    assert(informs_of(players.update(i, p)) =~= informs_of(players).update(i, p.inform()));
}

impl War {
    /// The cards in each player's hand.
    pub closed spec fn hands(self) -> Seq<Seq<Card>> {
        hands_of(self.players@)
    }

    /// The name of each player.
    pub closed spec fn names(self) -> Seq<Seq<char>> {
        names_of(self.players@)
    }

    /// Which players are persons at the terminal.
    pub closed spec fn informs(self) -> Seq<bool> {
        informs_of(self.players@)
    }

    /// How many cards a player wages in a war.
    pub closed spec fn draw_amount(self) -> usize {
        self.amount_of_cards_to_draw_during_war
    }

    /// Which players are out.
    pub closed spec fn eliminated_view(self) -> Seq<bool> {
        self.eliminated@
    }

    /// The players that ran out of cards, round by round.
    pub closed spec fn eliminations_view(self) -> Seq<Seq<usize>> {
        self.eliminations@.map_values(|e: Vec<usize>| e@)
    }

    /// The game is consistent: one elimination mark per player.
    pub closed spec fn wf(self) -> bool {
        self.eliminated@.len() == self.players@.len()
    }

    /// Creates a game of War with the players `players`, each waging up to
    /// `amount_of_cards_to_draw_during_war` cards in a war; no player is out yet.
    pub fn new(players: Vec<WarPlayer>, amount_of_cards_to_draw_during_war: usize) -> (war: War)
        ensures
            war.wf(),
            war.hands() == hands_of(players@),
            war.names() == names_of(players@),
            war.informs() == informs_of(players@),
            war.draw_amount() == amount_of_cards_to_draw_during_war,
            war.eliminated_view() == Seq::new(players@.len(), |i: int| false),
            war.eliminations_view() == Seq::<Seq<usize>>::empty(),
    {
        let mut eliminated: Vec<bool> = Vec::new();
        let mut i: usize = 0;
        while i < players.len()
            invariant
                i <= players.len(),
                eliminated@ == Seq::new(i as nat, |j: int| false),
            decreases players.len() - i,
        {
            eliminated.push(false);
            i += 1;
            assert(eliminated@ =~= Seq::new(i as nat, |j: int| false));
        }
        let war = War {
            players,
            amount_of_cards_to_draw_during_war,
            eliminated,
            eliminations: Vec::new(),
        };
        assert(war.eliminations_view() =~= Seq::<Seq<usize>>::empty());
        war
    }

    /// The number of players.
    pub fn player_count(&self) -> (n: usize)
        ensures
            n == self.hands().len(),
    {
        self.players.len()
    }

    /// The player at index `player_index`.
    pub fn player(&self, player_index: usize) -> (player: &WarPlayer)
        requires
            player_index < self.hands().len(),
        ensures
            player.hand_of() == self.hands()[player_index as int],
            player.name_of() == self.names()[player_index as int],
            player.inform() == self.informs()[player_index as int],
    {
        &self.players[player_index]
    }

    /// Deals `amount_of_decks` shuffled 52 card decks, one after the other, to the players: the
    /// cards of each deck are drawn from its top and go to the players in turn, starting with
    /// the first player, until the deck is empty.
    pub fn deal(&mut self, amount_of_decks: usize)
        requires
            old(self).wf(),
            old(self).hands().len() > 0 || amount_of_decks == 0,
        ensures
            final(self).wf(),
            exists|orders: Seq<Seq<Card>>|
                #![trigger deal_all(old(self).hands(), orders)]
                orders.len() == amount_of_decks && (forall|d: int|
                    0 <= d < orders.len() ==> #[trigger] orders[d].to_multiset()
                        == standard_deck().to_multiset() && orders[d].len() == 52) && final(self).hands() == deal_all(old(self).hands(), orders),
            final(self).names() == old(self).names(),
            final(self).informs() == old(self).informs(),
            final(self).draw_amount() == old(self).draw_amount(),
            final(self).eliminated_view() == old(self).eliminated_view(),
            final(self).eliminations_view() == old(self).eliminations_view(),
    {
        let ghost mut orders: Seq<Seq<Card>> = Seq::empty();
        let ghost start = self.hands();
        let mut d: usize = 0;
        while d < amount_of_decks
            invariant
                d <= amount_of_decks,
                self.wf(),
                self.hands().len() > 0 || amount_of_decks == 0,
                orders.len() == d,
                forall|k: int|
                    0 <= k < orders.len() ==> #[trigger] orders[k].to_multiset()
                        == standard_deck().to_multiset() && orders[k].len() == 52,
                self.hands() == deal_all(start, orders),
                self.names() == old(self).names(),
                self.informs() == old(self).informs(),
                self.draw_amount() == old(self).draw_amount(),
                self.eliminated_view() == old(self).eliminated_view(),
                self.eliminations_view() == old(self).eliminations_view(),
            decreases amount_of_decks - d,
        {
            let deck = Deck::shuffled_52_card();
            let ghost order = deck@.reverse();
            let ghost before = self.hands();
            proof {
                assert(order.to_multiset() =~= deck@.to_multiset()) by {
                    deck@.lemma_reverse_to_multiset();
                }
            }
            self.deal_deck(deck);
            proof {
                assert(orders.push(order).drop_last() =~= orders);
                orders = orders.push(order);
            }
            d += 1;
        }
    }

    /// Deals the cards of `deck` from its top to the players in turn, starting with the first.
    fn deal_deck(&mut self, deck: Deck)
        requires
            old(self).wf(),
            old(self).hands().len() > 0,
        ensures
            final(self).wf(),
            final(self).hands() == deal_spec(old(self).hands(), deck@.reverse()),
            final(self).names() == old(self).names(),
            final(self).informs() == old(self).informs(),
            final(self).draw_amount() == old(self).draw_amount(),
            final(self).eliminated_view() == old(self).eliminated_view(),
            final(self).eliminations_view() == old(self).eliminations_view(),
    {
        let mut deck = deck;
        let ghost full = deck@;
        let ghost start = self.hands();
        let n = self.players.len();
        while !deck.is_empty()
            invariant
                n == self.hands().len(),
                n > 0,
                self.wf(),
                deck@ == full.take(deck@.len() as int),
                deck@.len() <= full.len(),
                self.hands() == deal_spec(start, full.reverse().take(full.len() - deck@.len())),
                deck@.len() > 0 ==> (full.len() - deck@.len()) % (n as int) == 0,
                self.names() == old(self).names(),
                self.informs() == old(self).informs(),
                self.draw_amount() == old(self).draw_amount(),
                self.eliminated_view() == old(self).eliminated_view(),
                self.eliminations_view() == old(self).eliminations_view(),
            decreases deck@.len(),
        {
            let mut j: usize = 0;
            let ghost round_start = deck@.len();
            while j < n
                invariant
                    j <= n,
                    n == self.hands().len(),
                    n > 0,
                    self.wf(),
                    deck@ == full.take(deck@.len() as int),
                    deck@.len() <= round_start,
                    round_start > 0,
                    round_start <= full.len(),
                    self.hands() == deal_spec(start, full.reverse().take(full.len() - deck@.len())),
                    deck@.len() > 0 ==> (full.len() - deck@.len()) % (n as int) == (j as int) % (
                        n as int),
                    j > 0 ==> deck@.len() < round_start,
                    self.names() == old(self).names(),
                    self.informs() == old(self).informs(),
                    self.draw_amount() == old(self).draw_amount(),
                    self.eliminated_view() == old(self).eliminated_view(),
                    self.eliminations_view() == old(self).eliminations_view(),
                decreases n - j,
            {
                let ghost len_before = deck@.len();
                if let Some(card) = deck.draw() {
                    let ghost k = full.len() - len_before;
                    proof {
                        let taken = full.reverse().take(k + 1);
                        assert(taken.drop_last() =~= full.reverse().take(k));
                        assert(taken.last() == full[len_before - 1]);
                        assert(card == full[len_before - 1]);
                        assert(deck@ =~= full.take(deck@.len() as int));
                        assert(k % (n as int) == (j as int) % (n as int));
                        vstd::arithmetic::div_mod::lemma_small_mod(j as nat, n as nat);
                        lemma_deal_spec_len(start, full.reverse().take(k));
                    }
                    let ghost old_players = self.players@;
                    self.players[j].hand_mut().stack(card);
                    proof {
                        lemma_players_update(old_players, j as int, self.players@[j as int]);
                        assert(self.players@ == old_players.update(j as int, self.players@[j as int]));
                        if deck@.len() > 0 {
                            assert((k + 1) % (n as int) == (j + 1) % (n as int)) by {
                                vstd::arithmetic::div_mod::lemma_add_mod_noop(k, 1, n as int);
                                vstd::arithmetic::div_mod::lemma_add_mod_noop(j as int, 1, n as int);
                            }
                        }
                    }
                }
                j += 1;
            }
            proof {
                if deck@.len() > 0 {
                    assert((full.len() - deck@.len()) % (n as int) == n as int % (n as int));
                    vstd::arithmetic::div_mod::lemma_mod_self_0(n as int);
                }
            }
        }
        assert(full.reverse().take(full.len() as int) =~= full.reverse());
    }

    /// Returns player indices corresponding to the highest card rank, i.e. the winners.
    ///
    /// Ties for highest card rank are added to the candidates.
    pub fn determine_candidates(from_competition: &[(usize, Card)]) -> (candidates: Vec<usize>)
        ensures
            candidates@ == spec_candidates(from_competition@),
    {
        let comp = from_competition;
        if comp.len() == 0 {
            proof {
                reveal_with_fuel(Seq::<_>::filter, 1);
            }
            assert(spec_candidates(comp@) =~= Seq::<usize>::empty());
            return Vec::new();
        }
        let mut highest: usize = comp[0].1.rank.index();
        let mut i: usize = 1;
        assert(comp@.take(1).drop_last() =~= Seq::<(usize, Card)>::empty());
        assert(max_rank(Seq::<(usize, Card)>::empty()) == -1);
        assert(comp@.take(1).last() == comp@[0]);
        while i < comp.len()
            invariant
                1 <= i <= comp.len(),
                highest == max_rank(comp@.take(i as int)),
            decreases comp.len() - i,
        {
            assert(comp@.take(i + 1).drop_last() =~= comp@.take(i as int));
            let r = comp[i].1.rank.index();
            if r > highest {
                highest = r;
            }
            i += 1;
        }
        assert(comp@.take(comp.len() as int) =~= comp@);
        let ghost pred = |e: (usize, Card)| e.1.rank.pos() == max_rank(comp@);
        let mut candidates: Vec<usize> = Vec::new();
        let mut i: usize = 0;
        while i < comp.len()
            invariant
                i <= comp.len(),
                highest == max_rank(comp@),
                pred == (|e: (usize, Card)| e.1.rank.pos() == max_rank(comp@)),
                candidates@ == comp@.take(i as int).filter(pred).map_values(|e: (usize, Card)| e.0),
            decreases comp.len() - i,
        {
            proof {
                assert(comp@.take(i + 1) =~= comp@.take(i as int).push(comp@[i as int]));
                comp@.take(i as int).lemma_filter_push(comp@[i as int], pred);
            }
            let (index, card) = comp[i];
            if card.rank.index() == highest {
                candidates.push(index);
                proof {
                    let f = comp@.take(i as int).filter(pred);
                    assert(f.push(comp@[i as int]).map_values(|e: (usize, Card)| e.0) =~= f.map_values(
                        |e: (usize, Card)| e.0,
                    ).push(index));
                }
            }
            i += 1;
        }
        assert(comp@.take(comp.len() as int) =~= comp@);
        candidates
    }

    /// A list of the items, for messages: "a", "a and b", or "a, b, and c".
    pub fn list(items: &[&str]) -> (list_string: String)
        requires
            items@.len() > 0,
        ensures
            list_string@ == list_text(items@.map_values(|s: &str| s@)),
    {
        let ghost views = items@.map_values(|s: &str| s@);
        let mut list_string = String::new();
        if items.len() == 1 {
            push_str(&mut list_string, items[0]);
        } else if items.len() == 2 {
            push_str(&mut list_string, items[0]);
            let and = " and ";
            proof {
                reveal_strlit(" and ");
            }
            push_str(&mut list_string, and);
            push_str(&mut list_string, items[1]);
            assert(list_string@ =~= list_text(views));
        } else {
            let mut item_index: usize = 0;
            let comma = ", ";
            proof {
                reveal_strlit(", ");
            }
            while item_index < items.len() - 1
                invariant
                    item_index <= items@.len() - 1,
                    items@.len() > 2,
                    views == items@.map_values(|s: &str| s@),
                    comma@ == seq![',', ' '],
                    list_string@ == comma_part(views, item_index as int),
                decreases items.len() - 1 - item_index,
            {
                push_str(&mut list_string, items[item_index]);
                push_str(&mut list_string, comma);
                item_index += 1;
                assert(list_string@ =~= comma_part(views, item_index as int));
            }
            let and = "and ";
            proof {
                reveal_strlit("and ");
            }
            push_str(&mut list_string, and);
            push_str(&mut list_string, items[items.len() - 1]);
            assert(list_string@ =~= list_text(views));
        }
        list_string
    }

    /// Wages war among `candidates` (and, where the cards they turn over tie again, among the
    /// tied ones, and so on); records each war in `battles`. Returns the winner (`None` where no
    /// candidate of the last war had a card to wage) and all cards waged.
    fn war(&mut self, candidates: Vec<usize>, battles: &mut Vec<Battle>) -> (result: (
        Option<usize>,
        Deck,
    ))
        requires
            old(self).wf(),
            forall|i: int|
                0 <= i < candidates@.len() ==> #[trigger] candidates@[i] < old(self).hands().len(),
        ensures
            final(self).wf(),
            ({
                let w = spec_war(old(self).hands(), candidates@, old(self).draw_amount() as int);
                &&& final(self).hands() == w.hands
                &&& result.0 == w.winner
                &&& result.1@ == w.gained
                &&& battle_views(final(battles)@) == battle_views(old(battles)@) + w.battles
            }),
            final(self).names() == old(self).names(),
            final(self).informs() == old(self).informs(),
            final(self).draw_amount() == old(self).draw_amount(),
            final(self).eliminated_view() == old(self).eliminated_view(),
            final(self).eliminations_view() == old(self).eliminations_view(),
    {
        let n = self.amount_of_cards_to_draw_during_war;
        let ghost h0 = self.hands();
        let ghost c0 = candidates@;
        let ghost b0 = battle_views(battles@);
        let mut cands = candidates;
        let mut cards_to_gain = Deck::empty();
        assert(b0 + spec_war(h0, c0, n as int).battles =~= battle_views(battles@) + spec_war(
            self.hands(),
            cands@,
            n as int,
        ).battles);
        assert(spec_war(h0, c0, n as int).gained =~= cards_to_gain@ + spec_war(
            self.hands(),
            cands@,
            n as int,
        ).gained);
        loop
            invariant
                self.wf(),
                h0 == old(self).hands(),
                c0 == candidates@,
                b0 == battle_views(old(battles)@),
                forall|i: int| 0 <= i < cands@.len() ==> #[trigger] cands@[i] < self.hands().len(),
                n == self.draw_amount(),
                self.names() == old(self).names(),
                self.informs() == old(self).informs(),
                self.draw_amount() == old(self).draw_amount(),
                self.eliminated_view() == old(self).eliminated_view(),
                self.eliminations_view() == old(self).eliminations_view(),
                ({
                    let w0 = spec_war(h0, c0, n as int);
                    let w = spec_war(self.hands(), cands@, n as int);
                    &&& w0.hands == w.hands
                    &&& w0.winner == w.winner
                    &&& w0.gained == cards_to_gain@ + w.gained
                    &&& b0 + w0.battles == battle_views(battles@) + w.battles
                }),
            decreases total_len(self.hands()),
        {
            let ghost hs = self.hands();
            let ghost d = draw_for(hs, cands@, n as int);
            let ghost bv_before = battle_views(battles@);
            let ghost gained_before = cards_to_gain@;
            let mut hand_lengths: Vec<usize> = Vec::new();
            let mut draws: Vec<Deck> = Vec::new();
            let mut k: usize = 0;
            while k < cands.len()
                invariant
                    k <= cands@.len(),
                    self.wf(),
                    hs.len() == self.hands().len(),
                    forall|i: int|
                        0 <= i < cands@.len() ==> #[trigger] cands@[i] < self.hands().len(),
                    n == self.draw_amount(),
                    self.names() == old(self).names(),
                    self.informs() == old(self).informs(),
                    self.draw_amount() == old(self).draw_amount(),
                    self.eliminated_view() == old(self).eliminated_view(),
                    self.eliminations_view() == old(self).eliminations_view(),
                    hand_lengths@ == draw_for(hs, cands@.take(k as int), n as int).0,
                    draws@.map_values(|x: Deck| x@) == draw_for(hs, cands@.take(k as int), n as int).1,
                    self.hands() == draw_for(hs, cands@.take(k as int), n as int).2,
                decreases cands@.len() - k,
            {
                let c = cands[k];
                proof {
                    assert(cands@.take(k + 1).drop_last() =~= cands@.take(k as int));
                    assert(cands@.take(k + 1).last() == c);
                }
                let len = self.players[c].hand().len();
                let ghost old_players = self.players@;
                let ghost prevd = draw_for(hs, cands@.take(k as int), n as int);
                if len == 0 {
                    draws.push(Deck::empty());
                    proof {
                        assert(war_draw_cards(prevd.2[c as int], n as int) =~= Seq::<Card>::empty());
                        assert(war_draw_rest(prevd.2[c as int], n as int) =~= prevd.2[c as int]);
                        assert(prevd.2.update(c as int, prevd.2[c as int]) =~= prevd.2);
                    }
                } else {
                    let drawn = self.players[c].war_draw(n);
                    proof {
                        lemma_players_update(old_players, c as int, self.players@[c as int]);
                        assert(self.players@ == old_players.update(c as int, self.players@[c as int]));
                    }
                    draws.push(drawn);
                }
                hand_lengths.push(len);
                proof {
                    assert(draws@.map_values(|x: Deck| x@) =~= prevd.1.push(draws@.last()@));
                }
                k += 1;
            }
            assert(cands@.take(cands@.len() as int) =~= cands@);
            proof {
                lemma_draw_for_total(hs, cands@, n as int);
            }
            let mut competition: Vec<(usize, Card)> = Vec::new();
            let mut k: usize = 0;
            while k < cands.len()
                invariant
                    k <= cands@.len(),
                    draws@.len() == cands@.len(),
                    draws@.map_values(|x: Deck| x@) == d.1,
                    competition@ == competition_of(cands@.take(k as int), d.1.take(k as int)),
                decreases cands@.len() - k,
            {
                proof {
                    assert(cands@.take(k + 1).drop_last() =~= cands@.take(k as int));
                    assert(d.1.take(k + 1).drop_last() =~= d.1.take(k as int));
                    assert(d.1.take(k + 1).last() == draws@[k as int]@);
                }
                let wager = &draws[k];
                if wager.len() > 0 {
                    let top = wager.card_at_index(wager.len() - 1);
                    competition.push((cands[k], top));
                }
                k += 1;
            }
            assert(d.1.take(cands@.len() as int) =~= d.1);
            let next = Self::determine_candidates(competition.as_slice());
            let gained_here = Deck::from_decks(draws.as_slice());
            cards_to_gain.stack_deck(gained_here);
            let ghost old_cands = cands@;
            let ghost battle = BattleView { candidates: cands@, hand_lengths: hand_lengths@, draws: d.1 };
            battles.push(Battle { candidates: cands, hand_lengths, draws });
            proof {
                lemma_draw_for_total(hs, old_cands, n as int);
                lemma_competition_valid(old_cands, d.1, hs.len() as int);
                lemma_candidates_valid(competition@, hs.len() as int);
                assert(battle_views(battles@) =~= bv_before.push(battle));
                lemma_war_shrinks(hs, old_cands, n as int);
                assert(competition@ == competition_of(old_cands, d.1));
                assert(next@ == spec_candidates(competition_of(old_cands, d.1)));
                assert(self.hands() == d.2);
            }
            if next.len() > 1 {
                proof {
                    let rest = spec_war(self.hands(), next@, n as int);
                    assert(gained_before + (d.1.flatten() + rest.gained) =~= cards_to_gain@ + rest.gained);
                    assert(bv_before + (seq![battle] + rest.battles) =~= battle_views(battles@) + rest.battles);
                    lemma_total_len_nonneg(self.hands());
                    assert(total_len(self.hands()) < total_len(hs));
                }
                cands = next;
            } else if next.len() == 1 {
                proof {
                    assert(gained_before + d.1.flatten() =~= cards_to_gain@);
                    assert(bv_before + seq![battle] =~= battle_views(battles@));
                    assert(cards_to_gain@ =~= cards_to_gain@ + Seq::<Card>::empty());
                }
                let winner = next[0];
                return (Some(winner), cards_to_gain);
            } else {
                proof {
                    assert(gained_before + d.1.flatten() =~= cards_to_gain@);
                    assert(bv_before + seq![battle] =~= battle_views(battles@));
                    assert(spec_war(hs, old_cands, n as int) == WarSpec {
                        hands: d.2,
                        winner: None,
                        gained: d.1.flatten(),
                        battles: seq![battle],
                    });
                    assert(cards_to_gain@ =~= cards_to_gain@ + Seq::<Card>::empty());
                }
                return (None, cards_to_gain);
            }
        }
    }

    /// Plays a round: every player still in turns over the top card of their hand; the player
    /// with the highest rank wins, and where several tie they wage war. The winner gains all the
    /// cards turned over and waged, shuffled, under their hand. The players still in that are
    /// left without cards are out.
    ///
    /// Returns `None`, changing nothing, where no player is still in or a player still in has no
    /// card to turn over.
    pub fn play_round(&mut self) -> (report: Option<RoundReport>)
        requires
            old(self).wf(),
        ensures
            final(self).wf(),
            final(self).names() == old(self).names(),
            final(self).informs() == old(self).informs(),
            final(self).draw_amount() == old(self).draw_amount(),
            report is None <==> !ready(old(self).hands(), old(self).eliminated_view()),
            report matches Some(r) ==> (r.winner is Some ==> cards_in(final(self).hands()) == cards_in(
                old(self).hands(),
            )),
            report matches Some(r) ==> (r.winner is Some ==> won_round(
                old(self).hands(),
                old(self).eliminated_view(),
                old(self).draw_amount() as int,
                final(self).hands(),
            ) && goes_out(old(self).eliminated_view(), final(self).hands(), final(self).eliminated_view())),
            report matches Some(r) ==> (r.winner is None ==> cards_in(final(self).hands()).add(
                r.gained@.to_multiset(),
            ) == cards_in(old(self).hands())),
            report is None ==> final(self).hands() == old(self).hands() && final(self).eliminated_view() == old(self).eliminated_view() && final(self).eliminations_view()
                == old(self).eliminations_view(),
            report matches Some(r) ==> ({
                let s = spec_round(
                    old(self).hands(),
                    old(self).eliminated_view(),
                    old(self).draw_amount() as int,
                );
                &&& r.turns@ == s.turns
                &&& battle_views(r.battles@) == s.battles
                &&& r.winner == s.winner
                &&& r.gained@ == s.gained
                &&& final(self).hands().len() == s.hands.len()
                &&& match s.winner {
                    None => {
                        &&& final(self).hands() == s.hands
                        &&& r.eliminated@ == Seq::<usize>::empty()
                        &&& final(self).eliminated_view() == old(self).eliminated_view()
                        &&& final(self).eliminations_view() == old(self).eliminations_view()
                    },
                    Some(w) => {
                        &&& w < s.hands.len()
                        &&& forall|p: int|
                            0 <= p < s.hands.len() && p != w ==> #[trigger] final(self).hands()[p]
                                == s.hands[p]
                        &&& final(self).hands()[w as int].len() == s.gained.len() + s.hands[w as int].len()
                        &&& final(self).hands()[w as int].take(s.gained.len() as int).to_multiset()
                            == s.gained.to_multiset()
                        &&& final(self).hands()[w as int].skip(s.gained.len() as int) == s.hands[w as int]
                        &&& forall|p: int|
                            0 <= p < s.hands.len() ==> #[trigger] final(self).eliminated_view()[p]
                                == (old(self).eliminated_view()[p] || final(self).hands()[p].len()
                                == 0)
                        &&& r.eliminated@ == newly_out(
                            old(self).eliminated_view(),
                            final(self).hands(),
                            s.hands.len() as int,
                        )
                        &&& final(self).eliminations_view() == if r.eliminated@.len() > 0 {
                            old(self).eliminations_view().push(r.eliminated@)
                        } else {
                            old(self).eliminations_view()
                        }
                    },
                }
            }),
    {
        let n = self.players.len();
        let ghost h0 = self.hands();
        let ghost e0 = self.eliminated@;
        // every player still in must hold a card, and someone must be in
        let mut any_in = false;
        let mut i: usize = 0;
        while i < n
            invariant
                i <= n,
                n == self.players@.len(),
                self.wf(),
                any_in == exists|p: int| 0 <= p < i && !self.eliminated@[p],
                h0 == self.hands(),
                e0 == self.eliminated@,
                self.names() == old(self).names(),
                self.informs() == old(self).informs(),
                self.draw_amount() == old(self).draw_amount(),
                self.eliminations_view() == old(self).eliminations_view(),
                *self == *old(self),
                forall|p: int| 0 <= p < i && !self.eliminated@[p] ==> #[trigger] self.hands()[p].len() > 0,
            decreases n - i,
        {
            if !self.eliminated[i] {
                if self.players[i].hand().len() == 0 {
                    assert(self.hands()[i as int] == self.players@[i as int].hand_of());
                    return None;
                }
                any_in = true;
            }
            i += 1;
        }
        if !any_in {
            return None;
        }
        assert(ready(h0, e0));
        // every player still in turns over their top card
        let mut turns: Vec<Turn> = Vec::new();
        let mut competition: Vec<(usize, Card)> = Vec::new();
        let mut gained_cards: Vec<Card> = Vec::new();
        let mut p: usize = 0;
        while p < n
            invariant
                p <= n,
                n == self.players@.len(),
                self.wf(),
                h0.len() == n,
                e0 == self.eliminated@,
                ready(h0, e0),
                self.names() == old(self).names(),
                self.informs() == old(self).informs(),
                self.draw_amount() == old(self).draw_amount(),
                self.eliminations_view() == old(self).eliminations_view(),
                turns@ == turn_over(h0, e0, p as int).0,
                self.hands() == turn_over(h0, e0, p as int).1,
                competition@ == turn_competition(turns@),
                gained_cards@ == turn_cards(turns@),
            decreases n - p,
        {
            proof {
                lemma_turn_over(h0, e0, p as int);
            }
            if !self.eliminated[p] {
                let len = self.players[p].hand().len();
                let ghost old_players = self.players@;
                let card = self.players[p].draw();
                proof {
                    lemma_players_update(old_players, p as int, self.players@[p as int]);
                    assert(self.players@ == old_players.update(p as int, self.players@[p as int]));
                    assert(h0[p as int].len() > 0);
                }
                if let Some(card) = card {
                    let turn = Turn { player: p, hand_length: len, card };
                    turns.push(turn);
                    competition.push((p, card));
                    gained_cards.push(card);
                    proof {
                        assert(turn_competition(turns@) =~= turn_competition(turns@.drop_last()).push((p, card)));
                        assert(turn_cards(turns@) =~= turn_cards(turns@.drop_last()).push(card));
                    }
                }
            }
            p += 1;
        }
        proof {
            lemma_turn_over(h0, e0, n as int);
            lemma_candidates_count(competition@);
            assert forall|i: int| 0 <= i < competition@.len() implies #[trigger] competition@[i].0 < n by {
                assert(competition@[i].0 == turns@[i].player);
            }
            lemma_candidates_valid(competition@, n as int);
        }
        let ghost t1 = self.hands();
        let candidates = Self::determine_candidates(competition.as_slice());
        let mut battles: Vec<Battle> = Vec::new();
        let winner: Option<usize>;
        let mut all_gained = gained_cards;
        if candidates.len() > 1 {
            let ghost cands = candidates@;
            let (w, war_cards) = self.war(candidates, &mut battles);
            proof {
                lemma_war_valid(t1, cands, self.draw_amount() as int);
            }
            winner = w;
            let ghost before = all_gained@;
            let mut k: usize = 0;
            while k < war_cards.len()
                invariant
                    k <= war_cards@.len(),
                    all_gained@ == before + war_cards@.take(k as int),
                    self.names() == old(self).names(),
                    self.informs() == old(self).informs(),
                    self.draw_amount() == old(self).draw_amount(),
                    self.eliminations_view() == old(self).eliminations_view(),
                decreases war_cards@.len() - k,
            {
                all_gained.push(war_cards.card_at_index(k));
                k += 1;
                assert(all_gained@ =~= before + war_cards@.take(k as int));
            }
            assert(war_cards@.take(war_cards@.len() as int) =~= war_cards@);
            assert(battle_views(Seq::<Battle>::empty()) =~= Seq::<BattleView>::empty());
            assert(battle_views(battles@) =~= Seq::<BattleView>::empty() + battle_views(battles@));
        } else {
            winner = Some(candidates[0]);
            assert(battle_views(battles@) =~= Seq::<BattleView>::empty());
        }
        let gained = Deck::from_slice(all_gained.as_slice());
        let ghost s = spec_round(h0, e0, self.draw_amount() as int);
        assert(gained@ == s.gained);
        proof {
            round_keeps_cards(h0, e0, self.draw_amount() as int);
        }
        match winner {
            None => {
                Some(
                    RoundReport { turns, battles, winner: None, gained, eliminated: Vec::new() },
                )
            },
            Some(w) => {
                let ghost before_gain = self.hands();
                let mut to_hand = Deck::from_slice(all_gained.as_slice());
                to_hand.shuffle();
                let ghost shuffled = to_hand@;
                let ghost old_players = self.players@;
                self.players[w].hand_mut().stack_deck_under(to_hand);
                proof {
                    lemma_players_update(old_players, w as int, self.players@[w as int]);
                    assert(self.players@ == old_players.update(w as int, self.players@[w as int]));
                    let h = self.hands()[w as int];
                    assert(h.take(shuffled.len() as int) =~= shuffled);
                    assert(h.skip(shuffled.len() as int) =~= before_gain[w as int]);
                    lemma_gain_keeps_cards(before_gain, self.hands(), w as int, s.gained);
                }
                // the players still in that have no cards left are out
                let ghost hands_after = self.hands();
                let mut out: Vec<usize> = Vec::new();
                let mut out_again: Vec<usize> = Vec::new();
                let mut q: usize = 0;
                while q < n
                    invariant
                        q <= n,
                        n == self.players@.len(),
                        self.wf(),
                        self.hands() == hands_after,
                        e0.len() == n,
                        forall|j: int| 0 <= j < q ==> #[trigger] self.eliminated@[j] == (e0[j] || hands_after[j].len() == 0),
                        forall|j: int| q <= j < n ==> #[trigger] self.eliminated@[j] == e0[j],
                        out@ == newly_out(e0, hands_after, q as int),
                        out_again@ == out@,
                        self.names() == old(self).names(),
                        self.informs() == old(self).informs(),
                        self.draw_amount() == old(self).draw_amount(),
                        self.eliminations_view() == old(self).eliminations_view(),
                    decreases n - q,
                {
                    if !self.eliminated[q] && self.players[q].hand().len() == 0 {
                        self.eliminated.set(q, true);
                        out.push(q);
                        out_again.push(q);
                    }
                    q += 1;
                }
                if out.len() > 0 {
                    let ghost el0 = self.eliminations@;
                    self.eliminations.push(out_again);
                    assert(self.eliminations@ == el0.push(out_again));
                    assert(self.eliminations_view() =~= el0.map_values(|e: Vec<usize>| e@).push(out@));
                }
                Some(RoundReport { turns, battles, winner: Some(w), gained, eliminated: out })
            },
        }
    }

    /// Whether the game is over: at most one player is still in.
    pub fn is_over(&self) -> (over: bool)
        requires
            self.wf(),
        ensures
            over == (still_in(self.eliminated_view(), self.eliminated_view().len() as int).len() <= 1),
    {
        self.active_players().len() <= 1
    }

    /// The players still in, in order.
    pub fn active_players(&self) -> (active: Vec<usize>)
        requires
            self.wf(),
        ensures
            active@ == still_in(self.eliminated_view(), self.eliminated_view().len() as int),
    {
        let mut active: Vec<usize> = Vec::new();
        let mut i: usize = 0;
        while i < self.eliminated.len()
            invariant
                i <= self.eliminated@.len(),
                active@ == still_in(self.eliminated@, i as int),
            decreases self.eliminated@.len() - i,
        {
            if !self.eliminated[i] {
                active.push(i);
            }
            i += 1;
        }
        active
    }

    /// The leaderboard line of `name` at `place`, the dots filling `width`.
    fn place_line_text(place: usize, name: &str, width: usize) -> (line: Option<String>)
        ensures
            line matches Some(l) ==> place_line(place as nat, name@, width as int) == Some(l@),
            line is None ==> place_line(place as nat, name@, width as int) is None,
    {
        let ordinal = ordinal_string(place);
        let place_string = uppercase_ascii(ordinal.as_str());
        let place_length = place_string.as_str().len();
        let name_length = name.len();
        if place_length > width || name_length > width - place_length {
            return None;
        }
        let length_of_dots = width - place_length - name_length;
        let space = " ";
        let newline = "\n";
        proof {
            reveal_strlit(" ");
            reveal_strlit("\n");
        }
        let mut line = String::new();
        push_str(&mut line, space);
        push_str(&mut line, place_string.as_str());
        push_str(&mut line, space);
        let dots = repeat_char('.', length_of_dots);
        push_str(&mut line, dots.as_str());
        push_str(&mut line, space);
        push_str(&mut line, name);
        push_str(&mut line, newline);
        assert(line@ =~= place_line(place as nat, name@, width as int)->0);
        Some(line)
    }

    /// The leaderboard lines of the players of `group`, all at `place`.
    fn group_text(&self, group: &Vec<usize>, place: usize, width: usize) -> (text: Option<String>)
        ensures
            match text {
                Some(t) => group_lines(group@, place as nat, self.names(), width as int) == Some(t@),
                None => group_lines(group@, place as nat, self.names(), width as int) is None,
            },
    {
        let ghost names = self.names();
        let n = self.players.len();
        let mut text = String::new();
        let mut j: usize = 0;
        while j < group.len()
            invariant
                j <= group@.len(),
                n == names.len(),
                names == self.names(),
                group_lines(group@.take(j as int), place as nat, names, width as int) == Some(text@),
            decreases group@.len() - j,
        {
            let e = group[j];
            proof {
                assert(group@.take(j + 1).drop_last() =~= group@.take(j as int));
                assert(group@.take(j + 1).last() == e);
            }
            if e >= n {
                proof {
                    lemma_group_lines_none(group@, place as nat, names, width as int, j + 1);
                }
                return None;
            }
            match Self::place_line_text(place, self.players[e].name(), width) {
                Some(line) => {
                    push_str(&mut text, line.as_str());
                },
                None => {
                    proof {
                        lemma_group_lines_none(group@, place as nat, names, width as int, j + 1);
                    }
                    return None;
                },
            }
            j += 1;
        }
        assert(group@.take(group@.len() as int) =~= group@);
        Some(text)
    }

    /// The leaderboard lines of the players out, the last out first, the k-th group at place
    /// k + 2.
    fn groups_text(&self, width: usize) -> (text: Option<String>)
        requires
            self.eliminations@.len() < usize::MAX - 1,
        ensures
            match text {
                Some(t) => groups_lines(self.eliminations_view().reverse(), self.names(), width as int)
                    == Some(t@),
                None => groups_lines(self.eliminations_view().reverse(), self.names(), width as int) is None,
            },
    {
        let ghost names = self.names();
        let ghost groups = self.eliminations_view().reverse();
        let count = self.eliminations.len();
        let mut text = String::new();
        let mut k: usize = 0;
        while k < count
            invariant
                k <= count,
                count == self.eliminations@.len(),
                count < usize::MAX - 1,
                names == self.names(),
                groups == self.eliminations_view().reverse(),
                groups.len() == count,
                groups_lines(groups.take(k as int), names, width as int) == Some(text@),
            decreases count - k,
        {
            let group = &self.eliminations[count - 1 - k];
            assert(groups[k as int] == group@);
            proof {
                assert(groups.take(k + 1).drop_last() =~= groups.take(k as int));
                assert(groups.take(k + 1).last() == group@);
            }
            match self.group_text(group, k + 2, width) {
                Some(lines) => {
                    push_str(&mut text, lines.as_str());
                },
                None => {
                    proof {
                        lemma_groups_lines_none(groups, names, width as int, k + 1);
                    }
                    return None;
                },
            }
            k += 1;
        }
        assert(groups.take(count as int) =~= groups);
        Some(text)
    }

    /// The leaderboard of a finished game (the text printed when it ends): the first player
    /// still in is first, then the players out, the last out first, players out in the same
    /// round sharing a place. `None` where the game has no player, no player still in, or a line
    /// would be too wide.
    #[verifier::rlimit(50)]
    pub fn leaderboard(&self) -> (board: Option<String>)
        requires
            self.wf(),
        ensures
            match board {
                Some(b) => spec_war_leaderboard(
                    self.names(),
                    self.eliminated_view(),
                    self.eliminations_view(),
                ) == Some(b@),
                None => spec_war_leaderboard(
                    self.names(),
                    self.eliminated_view(),
                    self.eliminations_view(),
                ) is None,
            },
    {
        let ghost names = self.names();
        let n = self.players.len();
        if n == 0 {
            return None;
        }
        let active = self.active_players();
        if active.len() == 0 || active[0] >= n {
            return None;
        }
        let mut longest: usize = 0;
        let mut i: usize = 0;
        while i < n
            invariant
                i <= n,
                n == names.len(),
                names == self.names(),
                longest == longest_name(names.take(i as int)),
            decreases n - i,
        {
            proof {
                assert(names.take(i + 1).drop_last() =~= names.take(i as int));
                assert(names.take(i + 1).last() == names[i as int]);
            }
            let length = self.players[i].name().len();
            if length > longest {
                longest = length;
            }
            i += 1;
        }
        assert(names.take(n as int) =~= names);
        if longest > usize::MAX - 24 || self.eliminations.len() >= usize::MAX - 1 {
            return None;
        }
        let width = 20 + longest;
        let mut board = leaderboard_header(width);
        let ghost header = board@;
        let first = match Self::place_line_text(1, self.players[active[0]].name(), width) {
            Some(line) => line,
            None => {
                return None;
            },
        };
        push_str(&mut board, first.as_str());
        let rest = match self.groups_text(width) {
            Some(text) => text,
            None => {
                return None;
            },
        };
        push_str(&mut board, rest.as_str());
        let ghost middle = board@;
        let footer = leaderboard_footer(width);
        push_str(&mut board, footer.as_str());
        proof {
            assert(board@ =~= middle + footer@);
            assert(middle =~= header + first@ + rest@);
        }
        Some(board)
    }

    /// `string`, with an `s` added unless `count` is 1.
    pub fn pluralize(string: &str, count: usize) -> (s: String)
        ensures
            s@ == (if count == 1 {
                string@
            } else {
                string@.push('s')
            }),
    {
        let mut s = String::from_str(string);
        if count != 1 {
            s.push('s');
        }
        s
    }
}

} // verus!
