//! A table from hands to their scores.

use crate::hand::{lemma_key_injective, Hand};
use std::collections::HashMap;
use vstd::prelude::*;

verus! {

/// A table from hands to scores. Each hand is kept, with its score, under
/// the hand's key.
pub struct ScoreTable {
    pub scores: HashMap<u64, (Hand, usize)>,
}

impl ScoreTable {
    /// Every hand is kept under its own key.
    pub open spec fn wf(&self) -> bool {
        forall|k: u64| #[trigger]
            self.scores@.contains_key(k) ==> self.scores@[k].0.spec_key() == k
    }

    /// Whether the table holds the hand.
    pub open spec fn contains(&self, hand: Hand) -> bool {
        self.scores@.contains_key(hand.spec_key() as u64)
    }

    /// The score that the table holds for the hand.
    pub open spec fn score_of(&self, hand: Hand) -> usize {
        self.scores@[hand.spec_key() as u64].1
    }

    /// The number of hands that the table holds.
    pub open spec fn count(&self) -> nat {
        self.scores@.dom().len()
    }

    /// A table that holds no hand.
    pub fn new() -> (table: ScoreTable)
        ensures
            table.wf(),
            table.count() == 0,
            forall|hand: Hand| !table.contains(hand),
    {
        broadcast use vstd::std_specs::hash::group_hash_axioms;

        let table = ScoreTable { scores: HashMap::new() };
        assert(table.scores@.dom() =~= Set::<u64>::empty());
        table
    }

    /// The number of hands that the table holds.
    pub fn len(&self) -> (n: usize)
        ensures
            n == self.count(),
    {
        broadcast use vstd::std_specs::hash::group_hash_axioms;

        self.scores.len()
    }

    /// The score that the table holds for the hand, if it holds the hand.
    pub fn get(&self, hand: &Hand) -> (score: Option<usize>)
        ensures
            score is Some <==> self.contains(*hand),
            score is Some ==> score == Some(self.score_of(*hand)),
    {
        broadcast use vstd::std_specs::hash::group_hash_axioms;

        let key = hand.key();
        match self.scores.get(&key) {
            Some(entry) => Some(entry.1),
            None => None,
        }
    }

    /// Puts the hand into the table with its score. A hand that the table
    /// holds already gets the new score.
    pub fn insert(&mut self, hand: Hand, score: usize)
        requires
            old(self).wf(),
        ensures
            final(self).wf(),
            final(self).scores@ == old(self).scores@.insert(hand.spec_key() as u64, (hand, score)),
            forall|other: Hand|
                final(self).contains(other) <==> other == hand || old(self).contains(other),
            final(self).score_of(hand) == score,
            forall|other: Hand|
                other != hand ==> final(self).score_of(other) == old(self).score_of(other),
            old(self).contains(hand) ==> final(self).count() == old(self).count(),
            !old(self).contains(hand) ==> final(self).count() == old(self).count() + 1,
    {
        broadcast use vstd::std_specs::hash::group_hash_axioms;

        let key = hand.key();
        proof {
            lemma_key_injective(hand, hand);
            assert forall|other: Hand| other.spec_key() == hand.spec_key() implies other
                == hand by {
                lemma_key_injective(other, hand);
            }
            assert forall|other: Hand| 0 <= #[trigger] other.spec_key() < 380_204_032 by {
                lemma_key_injective(other, other);
            }
        }
        self.scores.insert(key, (hand, score));
    }
}

} // verus!
