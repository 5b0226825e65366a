//! The scoring rules, stated over sequences of cards.

use crate::card::{Card, Rank};
use vstd::prelude::*;

verus! {

/// What the cards count for together.
pub open spec fn total_points(cards: Seq<Card>) -> int
    decreases cards.len(),
{
    if cards.len() == 0 {
        0
    } else {
        total_points(cards.drop_last()) + cards.last().points()
    }
}

/// The number of ways to pick cards out of `cards`, by position, so that
/// they count for `target` together. Picking nothing is the one way to
/// count for zero.
pub open spec fn ways(cards: Seq<Card>, target: int) -> nat
    decreases cards.len(),
{
    if cards.len() == 0 {
        if target == 0 {
            1
        } else {
            0
        }
    } else {
        ways(cards.drop_first(), target - cards[0].points()) + ways(cards.drop_first(), target)
    }
}

/// The number of fifteens in the cards: the picks that count for fifteen.
pub open spec fn fifteens(cards: Seq<Card>) -> nat {
    ways(cards, 15)
}

/// How many of the cards have the rank at position `r`.
pub open spec fn rank_count(cards: Seq<Card>, r: int) -> nat
    decreases cards.len(),
{
    if cards.len() == 0 {
        0
    } else {
        rank_count(cards.drop_last(), r) + if cards.last().rank.index() == r {
            1nat
        } else {
            0nat
        }
    }
}

/// The number of pairs of positions that hold cards of one rank.
pub open spec fn same_rank_pairs(cards: Seq<Card>) -> nat
    decreases cards.len(),
{
    if cards.len() == 0 {
        0
    } else {
        same_rank_pairs(cards.drop_last()) + rank_count(
            cards.drop_last(),
            cards.last().rank.index(),
        )
    }
}

/// Two points for every pair of cards of one rank.
pub open spec fn pair_points(cards: Seq<Card>) -> nat {
    2 * same_rank_pairs(cards)
}

/// The length of the stretch of ranks that ends at position `r`: how many
/// ranks in a row, from `r` downwards, at least one card has. Zero where no
/// card has the rank at `r`.
pub open spec fn stretch_len(cards: Seq<Card>, r: int) -> nat
    decreases r + 1,
{
    if r < 0 || rank_count(cards, r) == 0 {
        0
    } else {
        1 + stretch_len(cards, r - 1)
    }
}

/// The number of ways to take one card of each rank of the stretch that
/// ends at position `r`.
pub open spec fn stretch_ways(cards: Seq<Card>, r: int) -> nat
    decreases r + 1,
{
    if r < 0 || rank_count(cards, r) == 0 {
        1
    } else {
        rank_count(cards, r) * stretch_ways(cards, r - 1)
    }
}

/// What the run that ends at position `r` is worth. A run is a stretch of
/// three ranks or more that cannot be made longer; each way to take one
/// card of each of its ranks scores one point per card.
pub open spec fn run_points_at(cards: Seq<Card>, r: int) -> nat {
    if rank_count(cards, r) > 0 && rank_count(cards, r + 1) == 0 && stretch_len(cards, r) >= 3 {
        stretch_len(cards, r) * stretch_ways(cards, r)
    } else {
        0
    }
}

/// What the runs that end below position `n` are worth together.
pub open spec fn run_points_below(cards: Seq<Card>, n: int) -> nat
    decreases n,
{
    if n <= 0 {
        0
    } else {
        run_points_below(cards, n - 1) + run_points_at(cards, n - 1)
    }
}

/// What the runs among the cards are worth.
pub open spec fn run_points(cards: Seq<Card>) -> nat {
    run_points_below(cards, 13)
}

/// Whether the held cards are all of one suit.
pub open spec fn same_suit(held: Seq<Card>) -> bool {
    forall|i: int| 0 <= i < held.len() ==> (#[trigger] held[i]).suit == held[0].suit
}

/// Four points where the held cards are all of one suit, and a fifth where
/// the cut is of that suit too. Nothing where the held cards differ in
/// suit, whatever the cut.
pub open spec fn flush_points(held: Seq<Card>, cut: Card) -> int {
    if same_suit(held) {
        if cut.suit == held[0].suit {
            5
        } else {
            4
        }
    } else {
        0
    }
}

/// Whether a held card is the jack of the cut's suit.
pub open spec fn has_nobs(held: Seq<Card>, cut: Card) -> bool {
    exists|i: int|
        0 <= i < held.len() && (#[trigger] held[i]).rank == Rank::Jack && held[i].suit == cut.suit
}

/// One point for holding the jack of the cut's suit.
pub open spec fn nobs_points(held: Seq<Card>, cut: Card) -> int {
    if has_nobs(held, cut) {
        1
    } else {
        0
    }
}

/// What the fifteens, the pairs and the runs among the cards are worth
/// together: two points for each fifteen, two for each pair, and each run's
/// points.
pub open spec fn rank_points(cards: Seq<Card>) -> nat {
    2 * fifteens(cards) + pair_points(cards) + run_points(cards)
}

/// The score of the held cards with the cut: the flush, nobs, and what the
/// fifteens, the pairs and the runs among all five are worth.
pub open spec fn hand_points(held: Seq<Card>, cut: Card) -> int {
    flush_points(held, cut) + nobs_points(held, cut) + rank_points(held.push(cut))
}

/// The score of four cards as they stand, before a cut is known: four
/// points where they are all of one suit, and the fifteens, the pairs and
/// the runs among them.
pub open spec fn kept_points(kept: Seq<Card>) -> int {
    rank_points(kept) + if same_suit(kept) {
        4int
    } else {
        0int
    }
}

/// Held cards that are not all of one suit get no flush points, whatever
/// the suit of the cut.
pub proof fn lemma_no_flush(held: Seq<Card>, cut: Card, other_cut: Card)
    requires
        !same_suit(held),
    ensures
        flush_points(held, cut) == 0,
        hand_points(held, cut) == nobs_points(held, cut) + rank_points(held.push(cut)),
        flush_points(held, other_cut) == flush_points(held, cut),
{
}

} // verus!
