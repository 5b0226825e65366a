//! Ways to choose the four cards to keep out of the cards dealt.

use crate::card::Card;
use crate::hand::Hand;
use crate::rules::kept_points;
use crate::subsets::{
    binomial, card_combinations, combinations, lemma_binomial_closed,
    lemma_combination_is_selection, lemma_combinations_len, lemma_selection_multiset,
};
use rand::rngs::StdRng;
use rand::seq::IndexedRandom;
use vstd::math::min;
use vstd::prelude::*;

verus! {

/// The random number generator of the `rand` crate that the random strategy
/// draws from. Nothing is known of its state.
#[verifier::external_type_specification]
#[verifier::external_body]
pub struct ExStdRng(StdRng);

/// Whether the kept cards are four of the cards dealt, none of them kept
/// more often than it was dealt.
pub open spec fn kept_from(kept: Seq<Card>, dealt: Seq<Card>) -> bool {
    &&& kept.len() == 4
    &&& kept.to_multiset().subset_of(dealt.to_multiset())
}

/// Whether the kept cards are the four of the cards dealt that score most
/// as they stand: of the sets of four in the order of `combinations`, the
/// last of those that score most.
pub open spec fn is_best_kept(kept: Seq<Card>, dealt: Seq<Card>) -> bool {
    exists|m: int|
        {
            &&& 0 <= m < combinations(dealt, 4).len()
            &&& #[trigger] combinations(dealt, 4)[m] == kept
            &&& forall|j: int|
                0 <= j < combinations(dealt, 4).len() ==> kept_points(
                    #[trigger] combinations(dealt, 4)[j],
                ) <= kept_points(kept)
            &&& forall|j: int|
                m < j < combinations(dealt, 4).len() ==> kept_points(
                    #[trigger] combinations(dealt, 4)[j],
                ) < kept_points(kept)
        }
}

/// The most cards that a deal can hold: the whole deck.
pub const MAX_DEALT: usize = 52;

/// The strategy trait which implements how four cards out of the input list
/// of cards are chosen to be kept.
pub trait Strategy {
    /// Chooses the four cards to keep.
    fn keep(&mut self, cards_dealt: &Vec<Card>) -> (kept: [Card; 4])
        requires
            4 <= cards_dealt@.len() <= MAX_DEALT,
        ensures
            kept_from(kept@, cards_dealt@),
    ;
}

/// The random strategy simply randomly chooses four of the cards dealt to
/// it to be kept.
///
/// It holds its own generator so that it can be compared to other
/// strategies without interfering with the central generator that will do
/// the dealing of cards.
pub struct RandStrat {
    pub rng: StdRng,
}

/// Calls `IndexedRandom::sample` on the cards and collects a copy of each
/// card that it yields.
///
/// Trusted: the iterator yields the cards at `amount` different positions,
/// or at every position where there are fewer cards than that; which
/// positions, and in which order, is left to the generator.
#[verifier::external_body]
fn sample_cards(rng: &mut StdRng, cards: &Vec<Card>, amount: usize) -> (picked: Vec<Card>)
    requires
        cards@.len() <= u32::MAX,
    ensures
        picked@.len() == min(amount as int, cards@.len() as int),
        picked@.to_multiset().subset_of(cards@.to_multiset()),
{
    cards.sample(rng, amount).copied().collect()
}

impl Strategy for RandStrat {
    fn keep(&mut self, cards_dealt: &Vec<Card>) -> (kept: [Card; 4]) {
        let picked = sample_cards(&mut self.rng, cards_dealt, 4);
        let kept = [picked[0], picked[1], picked[2], picked[3]];
        assert(kept@ =~= picked@);
        kept
    }
}

/// Attempt to get maximum current score of four cards.
pub struct MaxCurrentScore {}

impl Strategy for MaxCurrentScore {
    fn keep(&mut self, cards_dealt: &Vec<Card>) -> (kept: [Card; 4])
        ensures
            is_best_kept(kept@, cards_dealt@),
    {
        proof {
            lemma_sets_of_four(cards_dealt@.len());
            lemma_combinations_len(cards_dealt@, 4);
        }
        let sets = card_combinations(cards_dealt, 4);
        let ghost all = combinations(cards_dealt@, 4);
        proof {
            assert forall|j: int| 0 <= j < all.len() implies (#[trigger] all[j]).len() == 4 by {
                lemma_combination_is_selection(cards_dealt@, 4, j);
            }
        }
        let mut best: usize = 0;
        let mut best_score: usize = Hand::score_nocut(&sets[0]);
        let mut i: usize = 1;
        while i < sets.len()
            invariant
                1 <= i <= sets@.len(),
                sets@.len() == all.len(),
                all == combinations(cards_dealt@, 4),
                forall|j: int| 0 <= j < sets@.len() ==> (#[trigger] sets@[j])@ == all[j],
                forall|j: int| 0 <= j < all.len() ==> (#[trigger] all[j]).len() == 4,
                best < i,
                best_score == kept_points(all[best as int]),
                forall|j: int| 0 <= j < i ==> kept_points(#[trigger] all[j]) <= best_score,
                forall|j: int| best < j < i ==> kept_points(#[trigger] all[j]) < best_score,
            decreases sets@.len() - i,
        {
            let score = Hand::score_nocut(&sets[i]);
            if score >= best_score {
                best = i;
                best_score = score;
            }
            i += 1;
        }
        let kept = [sets[best][0], sets[best][1], sets[best][2], sets[best][3]];
        proof {
            assert(kept@ =~= all[best as int]);
            lemma_combination_is_selection(cards_dealt@, 4, best as int);
            lemma_selection_multiset(kept@, cards_dealt@);
        }
        kept
    }
}

/// Out of four to fifty-two cards at least one set of four can be selected,
/// and no more sets than can be counted.
proof fn lemma_sets_of_four(n: nat)
    requires
        4 <= n <= 52,
    ensures
        1 <= binomial(n, 4) <= 270725,
{
    lemma_binomial_closed(n);
    let m = n as int;
    assert(24 <= m * (m - 1) * (m - 2) * (m - 3) <= 6497400) by (nonlinear_arith)
        requires
            4 <= m <= 52,
    ;
}

} // verus!
