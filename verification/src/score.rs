//! The pieces of the scoring engine that work on the cards of a hand, and
//! the proofs that they follow the scoring rules.

use crate::card::Card;
use crate::hand::Hand;
use crate::rules::{
    fifteens, pair_points, rank_count, stretch_len, stretch_ways, total_points, ways,
};
use crate::subsets::{
    card_combinations, combinations, lemma_binomial_bound, lemma_binomial_zero,
    lemma_combinations_item_len, lemma_combinations_len,
};
use vstd::arithmetic::power2::{
    lemma2_to64, lemma_pow2_adds, lemma_pow2_strictly_increases, lemma_pow2_unfold, pow2,
};
use vstd::prelude::*;

verus! {

/// The five cards of a hand: the held cards, then the cut.
pub fn cards(s: &Hand) -> (cs: Vec<Card>)
    ensures
        cs@ == s.hand@.push(s.cut),
{
    let mut cs: Vec<Card> = Vec::new();
    for i in 0..4
        invariant
            cs@ == s.hand@.take(i as int),
    {
        cs.push(s.hand[i]);
        proof {
            assert(s.hand@.take(i + 1) =~= s.hand@.take(i as int).push(s.hand@[i as int]));
        }
    }
    proof {
        assert(s.hand@.take(4) =~= s.hand@);
    }
    cs.push(s.cut);
    cs
}

/// Whether two cards are a pair: of one rank.
pub fn is_pair(c1: &Card, c2: &Card) -> (b: bool)
    ensures
        b == (c1.rank == c2.rank),
{
    c1.rank == c2.rank
}

/// Whether the cards count for fifteen together.
pub fn is_fifteen(cs: &[Card]) -> (b: bool)
    ensures
        b == (total_points(cs@) == 15),
{
    let mut t: i32 = 0;
    let mut i: usize = 0;
    while i < cs.len()
        invariant
            i <= cs.len(),
            t == total_points(cs@.take(i as int)),
            t <= 15,
        decreases cs.len() - i,
    {
        proof {
            assert(cs@.take(i + 1).drop_last() =~= cs@.take(i as int));
        }
        t += cs[i].value();
        i += 1;
        if t > 15 {
            proof {
                lemma_total_points_grows(cs@, i as int);
            }
            return false;
        }
    }
    proof {
        assert(cs@.take(i as int) =~= cs@);
    }
    t == 15
}

/// The most cards among which the fifteens can be counted: with no more,
/// twice the number of picks fits in 32 bits.
pub const MAX_SHOWN: usize = 29;

/// Counts the fifteens among the cards: the picks of two cards or more, of
/// each size in turn, that count for fifteen.
pub fn count_fifteens(cards: &Vec<Card>) -> (n: usize)
    requires
        cards@.len() <= MAX_SHOWN,
    ensures
        n == fifteens(cards@),
{
    let mut n: usize = 0;
    let mut k: usize = 2;
    proof {
        lemma_no_small_fifteen(cards@);
        lemma_ways_by_size(cards@, (cards@.len() + 1) as nat, 15);
        lemma_ways_bound(cards@, 15);
        lemma2_to64();
        if cards@.len() < 29 {
            lemma_pow2_strictly_increases(cards@.len(), 29);
        }
        if cards@.len() < 2 {
            lemma_ways_below_saturates(cards@, 2, 15);
        }
    }
    while k <= cards.len()
        invariant
            2 <= k,
            k <= cards@.len() + 1 || cards@.len() < 2,
            cards@.len() <= MAX_SHOWN,
            n == ways_below(cards@, k as nat, 15),
            ways_below(cards@, (cards@.len() + 1) as nat, 15) == ways(cards@, 15),
            ways(cards@, 15) <= 0x2000_0000,
        decreases cards@.len() + 1 - k,
    {
        proof {
            lemma_binomial_bound(cards@.len(), k as nat);
            lemma2_to64();
            if cards@.len() < 29 {
                lemma_pow2_strictly_increases(cards@.len(), 29);
            }
            lemma_ways_below_monotonic(cards@, (k + 1) as nat, (cards@.len() + 1) as nat, 15);
        }
        let picks = card_combinations(cards, k);
        let mut i: usize = 0;
        let ghost before = n;
        while i < picks.len()
            invariant
                i <= picks@.len(),
                picks@.len() == combinations(cards@, k as nat).len(),
                forall|j: int|
                    0 <= j < picks@.len() ==> (#[trigger] picks@[j])@ == combinations(
                        cards@,
                        k as nat,
                    )[j],
                n == before + count_sums(combinations(cards@, k as nat).take(i as int), 15),
                before + count_sums(combinations(cards@, k as nat), 15) <= 0x2000_0000,
            decreases picks@.len() - i,
        {
            proof {
                let all = combinations(cards@, k as nat);
                assert(all.take(i + 1).drop_last() =~= all.take(i as int));
                lemma_count_sums_take(all, i + 1, 15);
            }
            if is_fifteen(picks[i].as_slice()) {
                n += 1;
            }
            i += 1;
        }
        proof {
            let all = combinations(cards@, k as nat);
            assert(all.take(i as int) =~= all);
        }
        k += 1;
    }
    proof {
        lemma_ways_below_saturates(cards@, k as nat, 15);
    }
    n
}

/// What shows cards can count the fifteens among them.
pub trait Fifteens {
    /// The cards that are shown.
    spec fn shown(&self) -> Seq<Card>;

    /// The cards that are shown, in their order.
    fn cards(&self) -> (cs: Vec<Card>)
        ensures
            cs@ == self.shown(),
    ;

    /// Two points for each fifteen among the cards that are shown.
    fn score_fifteens(&self) -> (t: i32)
        requires
            self.shown().len() <= MAX_SHOWN,
        ensures
            t == 2 * fifteens(self.shown()),
    {
        let cs = self.cards();
        let n = count_fifteens(&cs);
        proof {
            lemma_ways_bound(cs@, 15);
            lemma2_to64();
            if cs@.len() < 29 {
                lemma_pow2_strictly_increases(cs@.len(), 29);
            }
        }
        let t: i32 = n as i32;
        2 * t
    }
}

impl Fifteens for Hand {
    open spec fn shown(&self) -> Seq<Card> {
        self.hand@.push(self.cut)
    }

    fn cards(&self) -> (cs: Vec<Card>) {
        cards(self)
    }
}

/// How many of the picks count for `target`.
pub open spec fn count_sums(picks: Seq<Seq<Card>>, target: int) -> nat
    decreases picks.len(),
{
    if picks.len() == 0 {
        0
    } else {
        count_sums(picks.drop_last(), target) + if total_points(picks.last()) == target {
            1nat
        } else {
            0nat
        }
    }
}

/// How many of the picks of fewer than `n` cards count for `target`.
pub open spec fn ways_below(cards: Seq<Card>, n: nat, target: int) -> nat
    decreases n,
{
    if n == 0 {
        0
    } else {
        ways_below(cards, (n - 1) as nat, target) + count_sums(
            combinations(cards, (n - 1) as nat),
            target,
        )
    }
}

/// Each card counts for one at least and for ten at most.
pub proof fn lemma_total_points_bounds(cards: Seq<Card>)
    ensures
        cards.len() <= total_points(cards) <= 10 * cards.len(),
    decreases cards.len(),
{
    if cards.len() != 0 {
        lemma_total_points_bounds(cards.drop_last());
    }
}

/// A card in front adds what it counts for.
pub proof fn lemma_total_points_prepend(card: Card, cards: Seq<Card>)
    ensures
        total_points(seq![card] + cards) == card.points() + total_points(cards),
    decreases cards.len(),
{
    let all = seq![card] + cards;
    if cards.len() == 0 {
        assert(all.drop_last() =~= Seq::<Card>::empty());
        assert(total_points(all.drop_last()) == 0);
    } else {
        assert(all.drop_last() =~= seq![card] + cards.drop_last());
        lemma_total_points_prepend(card, cards.drop_last());
    }
}

/// The picks of two sequences are counted apart.
pub proof fn lemma_count_sums_concat(a: Seq<Seq<Card>>, b: Seq<Seq<Card>>, target: int)
    ensures
        count_sums(a + b, target) == count_sums(a, target) + count_sums(b, target),
    decreases b.len(),
{
    if b.len() == 0 {
        assert(a + b =~= a);
    } else {
        assert((a + b).drop_last() =~= a + b.drop_last());
        lemma_count_sums_concat(a, b.drop_last(), target);
    }
}

/// With a card in front of each, the picks count for as much more as the
/// card counts for.
pub proof fn lemma_count_sums_prepend(card: Card, picks: Seq<Seq<Card>>, target: int)
    ensures
        count_sums(picks.map_values(|c: Seq<Card>| seq![card] + c), target) == count_sums(
            picks,
            target - card.points(),
        ),
    decreases picks.len(),
{
    let f = |c: Seq<Card>| seq![card] + c;
    if picks.len() != 0 {
        assert(picks.map_values(f).drop_last() =~= picks.drop_last().map_values(f));
        lemma_count_sums_prepend(card, picks.drop_last(), target);
        lemma_total_points_prepend(card, picks.last());
    }
}

/// The picks of `k` cards that count for `target` either take the first
/// card or leave it.
proof fn lemma_count_sums_split(cards: Seq<Card>, k: nat, target: int)
    requires
        cards.len() > 0,
        k > 0,
    ensures
        count_sums(combinations(cards, k), target) == count_sums(
            combinations(cards.drop_first(), (k - 1) as nat),
            target - cards[0].points(),
        ) + count_sums(combinations(cards.drop_first(), k), target),
{
    let with_first = combinations(cards.drop_first(), (k - 1) as nat);
    let without = combinations(cards.drop_first(), k);
    lemma_count_sums_concat(
        with_first.map_values(|c: Seq<Card>| seq![cards[0]] + c),
        without,
        target,
    );
    lemma_count_sums_prepend(cards[0], with_first, target);
}

/// The picks of fewer than `n` cards that count for `target` either take
/// the first card or leave it.
proof fn lemma_ways_below_split(cards: Seq<Card>, n: nat, target: int)
    requires
        cards.len() > 0,
        n > 0,
    ensures
        ways_below(cards, n, target) == ways_below(
            cards.drop_first(),
            (n - 1) as nat,
            target - cards[0].points(),
        ) + ways_below(cards.drop_first(), n, target),
    decreases n,
{
    let rest = cards.drop_first();
    assert(combinations(cards, 0) =~= combinations(rest, 0));
    if n == 1 {
        assert(ways_below(cards, 0, target) == 0);
        assert(ways_below(rest, 0, target) == 0);
        assert(ways_below(rest, 0, target - cards[0].points()) == 0);
    } else {
        lemma_ways_below_split(cards, (n - 1) as nat, target);
        lemma_count_sums_split(cards, (n - 1) as nat, target);
    }
}

/// There are no picks of more cards than there are cards.
proof fn lemma_ways_below_saturates(cards: Seq<Card>, n: nat, target: int)
    requires
        n > cards.len(),
    ensures
        ways_below(cards, n, target) == ways_below(cards, cards.len() + 1, target),
    decreases n,
{
    if n > cards.len() + 1 {
        lemma_ways_below_saturates(cards, (n - 1) as nat, target);
        lemma_combinations_len(cards, (n - 1) as nat);
        lemma_binomial_zero(cards.len(), (n - 1) as nat);
    }
}

/// Counting the picks size by size counts every pick once.
pub proof fn lemma_ways_by_size(cards: Seq<Card>, n: nat, target: int)
    requires
        n > cards.len(),
    ensures
        ways_below(cards, n, target) == ways(cards, target),
    decreases cards.len(),
{
    if cards.len() == 0 {
        lemma_ways_below_saturates(cards, n, target);
        assert(ways_below(cards, 1, target) == ways_below(cards, 0, target) + count_sums(
            combinations(cards, 0),
            target,
        ));
        let picks = combinations(cards, 0);
        assert(picks.drop_last() =~= Seq::<Seq<Card>>::empty());
        assert(count_sums(picks.drop_last(), target) == 0);
        assert(total_points(picks.last()) == 0);
    } else {
        lemma_ways_below_split(cards, n, target);
        let rest = cards.drop_first();
        if n - 1 > rest.len() {
            lemma_ways_by_size(rest, (n - 1) as nat, target - cards[0].points());
        }
        lemma_ways_by_size(rest, n, target);
    }
}

/// No pick of fewer than two cards counts for fifteen.
pub proof fn lemma_no_small_fifteen(cards: Seq<Card>)
    ensures
        ways_below(cards, 2, 15) == 0,
{
    assert(ways_below(cards, 2, 15) == ways_below(cards, 1, 15) + count_sums(
        combinations(cards, 1),
        15,
    ));
    assert(ways_below(cards, 1, 15) == ways_below(cards, 0, 15) + count_sums(
        combinations(cards, 0),
        15,
    ));
    lemma_none_counts(cards, 0);
    lemma_none_counts(cards, 1);
}

/// No pick of no card or of one card counts for fifteen.
proof fn lemma_none_counts(cards: Seq<Card>, k: nat)
    requires
        k <= 1,
    ensures
        count_sums(combinations(cards, k), 15) == 0,
{
    let picks = combinations(cards, k);
    assert forall|i: int| 0 <= i < picks.len() implies total_points(#[trigger] picks[i]) != 15 by {
        lemma_combinations_item_len(cards, k, i);
        lemma_total_points_bounds(picks[i]);
    }
    lemma_count_sums_none(picks, 15);
}

/// Where no pick counts for `target`, none is counted.
proof fn lemma_count_sums_none(picks: Seq<Seq<Card>>, target: int)
    requires
        forall|i: int| 0 <= i < picks.len() ==> total_points(#[trigger] picks[i]) != target,
    ensures
        count_sums(picks, target) == 0,
    decreases picks.len(),
{
    if picks.len() != 0 {
        lemma_count_sums_none(picks.drop_last(), target);
    }
}

/// There are no more ways to pick than there are subsets.
pub proof fn lemma_ways_bound(cards: Seq<Card>, target: int)
    ensures
        ways(cards, target) <= pow2(cards.len()),
    decreases cards.len(),
{
    lemma2_to64();
    if cards.len() != 0 {
        lemma_ways_bound(cards.drop_first(), target);
        lemma_ways_bound(cards.drop_first(), target - cards[0].points());
        lemma_pow2_unfold(cards.len());
    }
}

/// The picks of fewer than `n` cards are among those of fewer than `m`.
proof fn lemma_ways_below_monotonic(cards: Seq<Card>, n: nat, m: nat, target: int)
    requires
        n <= m,
    ensures
        ways_below(cards, n, target) <= ways_below(cards, m, target),
    decreases m,
{
    if n < m {
        lemma_ways_below_monotonic(cards, n, (m - 1) as nat, target);
    }
}

/// How many of the cards have a rank below position `n`.
pub open spec fn cards_below(cards: Seq<Card>, n: int) -> nat
    decreases cards.len(),
{
    if cards.len() == 0 {
        0
    } else {
        cards_below(cards.drop_last(), n) + if cards.last().rank.index() < n {
            1nat
        } else {
            0nat
        }
    }
}

/// The pair points as the ranks below position `n` give them one by one: a
/// rank that `c` cards have gives `c * (c - 1)`.
pub open spec fn bucket_pairs(cards: Seq<Card>, n: int) -> int
    decreases n,
{
    if n <= 0 {
        0
    } else {
        bucket_pairs(cards, n - 1) + rank_count(cards, n - 1) * (rank_count(cards, n - 1) - 1)
    }
}

/// The number of cards in the stretch that ends at position `r`.
pub open spec fn stretch_cards(cards: Seq<Card>, r: int) -> nat
    decreases r + 1,
{
    if r < 0 || rank_count(cards, r) == 0 {
        0
    } else {
        rank_count(cards, r) + stretch_cards(cards, r - 1)
    }
}

/// No more cards have a rank than there are cards, and none has a rank
/// beside the thirteen.
pub proof fn lemma_rank_count_range(cards: Seq<Card>, r: int)
    ensures
        rank_count(cards, r) <= cards.len(),
        !(0 <= r < 13) ==> rank_count(cards, r) == 0,
    decreases cards.len(),
{
    if cards.len() != 0 {
        lemma_rank_count_range(cards.drop_last(), r);
    }
}

/// The cards below a position are those below the position before it and
/// those at that one; none is below the first position, and all are below
/// the one past the last.
pub proof fn lemma_cards_below_step(cards: Seq<Card>, n: int)
    ensures
        cards_below(cards, n + 1) == cards_below(cards, n) + rank_count(cards, n),
        cards_below(cards, n) <= cards.len(),
        n <= 0 ==> cards_below(cards, n) == 0,
        n >= 13 ==> cards_below(cards, n) == cards.len(),
    decreases cards.len(),
{
    if cards.len() != 0 {
        lemma_cards_below_step(cards.drop_last(), n);
    }
}

/// One more card of a rank pairs with each card of that rank.
proof fn lemma_bucket_pairs_push(cards: Seq<Card>, card: Card, n: int)
    ensures
        card.rank.index() < n ==> bucket_pairs(cards.push(card), n) == bucket_pairs(cards, n) + 2
            * rank_count(cards, card.rank.index()),
        card.rank.index() >= n ==> bucket_pairs(cards.push(card), n) == bucket_pairs(cards, n),
    decreases n,
{
    let more = cards.push(card);
    assert(more.drop_last() =~= cards);
    if n > 0 {
        lemma_bucket_pairs_push(cards, card, n - 1);
        let c = rank_count(cards, n - 1) as int;
        if card.rank.index() == n - 1 {
            assert(rank_count(more, n - 1) == c + 1);
            assert((c + 1) * ((c + 1) - 1) == c * (c - 1) + 2 * c) by (nonlinear_arith);
        } else {
            assert(rank_count(more, n - 1) == c);
        }
    }
}

/// Rank by rank, `c` cards of a rank make `c * (c - 1) / 2` pairs.
pub proof fn lemma_bucket_pairs(cards: Seq<Card>)
    ensures
        bucket_pairs(cards, 13) == pair_points(cards),
    decreases cards.len(),
{
    if cards.len() == 0 {
        lemma_bucket_pairs_empty(cards, 13);
    } else {
        lemma_bucket_pairs(cards.drop_last());
        lemma_bucket_pairs_push(cards.drop_last(), cards.last(), 13);
        assert(cards.drop_last().push(cards.last()) =~= cards);
    }
}

/// A rank that no card has gives no pair points.
pub proof fn lemma_bucket_pairs_skip(cards: Seq<Card>, n: int)
    requires
        n >= 0,
        rank_count(cards, n) == 0,
    ensures
        bucket_pairs(cards, n + 1) == bucket_pairs(cards, n),
{
    let c = rank_count(cards, n) as int;
    assert(c * (c - 1) == 0) by (nonlinear_arith)
        requires
            c == 0,
    ;
}

/// No cards give no pair points.
proof fn lemma_bucket_pairs_empty(cards: Seq<Card>, n: int)
    requires
        cards.len() == 0,
    ensures
        bucket_pairs(cards, n) == 0,
    decreases n,
{
    if n > 0 {
        lemma_bucket_pairs_empty(cards, n - 1);
        assert(rank_count(cards, n - 1) == 0);
    }
}

/// The ways to take one card of each rank of a stretch are no more than the
/// subsets of its cards.
pub proof fn lemma_stretch_bounds(cards: Seq<Card>, r: int)
    ensures
        stretch_ways(cards, r) <= pow2(stretch_cards(cards, r)),
        stretch_cards(cards, r) <= cards_below(cards, r + 1),
        stretch_len(cards, r) <= stretch_cards(cards, r),
        stretch_ways(cards, r) >= 1,
    decreases r + 1,
{
    lemma2_to64();
    lemma_cards_below_step(cards, r);
    if r < 0 || rank_count(cards, r) == 0 {
    } else {
        lemma_stretch_bounds(cards, r - 1);
        let c = rank_count(cards, r);
        let w = stretch_ways(cards, r - 1);
        let k = stretch_cards(cards, r - 1);
        lemma_count_below_pow2(c);
        lemma_pow2_adds(c, k);
        assert(c * w <= pow2(c) * pow2(k)) by (nonlinear_arith)
            requires
                c <= pow2(c),
                w <= pow2(k),
        ;
        assert(c * w >= 1) by (nonlinear_arith)
            requires
                c >= 1,
                w >= 1,
        ;
    }
}

/// A number is no more than two to its power.
proof fn lemma_count_below_pow2(c: nat)
    ensures
        c <= pow2(c),
    decreases c,
{
    lemma2_to64();
    if c > 0 {
        lemma_count_below_pow2((c - 1) as nat);
        lemma_pow2_unfold(c);
    }
}

/// The first cards count for no more than all do.
proof fn lemma_total_points_grows(cards: Seq<Card>, i: int)
    requires
        0 <= i <= cards.len(),
    ensures
        total_points(cards.take(i)) <= total_points(cards),
    decreases cards.len() - i,
{
    if i < cards.len() {
        assert(cards.take(i + 1).drop_last() =~= cards.take(i));
        lemma_total_points_grows(cards, i + 1);
    } else {
        assert(cards.take(i) =~= cards);
    }
}

/// Among the first picks no more count for `target` than among all.
proof fn lemma_count_sums_take(picks: Seq<Seq<Card>>, i: int, target: int)
    requires
        0 <= i <= picks.len(),
    ensures
        count_sums(picks.take(i), target) <= count_sums(picks, target),
    decreases picks.len() - i,
{
    if i < picks.len() {
        assert(picks.take(i + 1).drop_last() =~= picks.take(i));
        lemma_count_sums_take(picks, i + 1, target);
    } else {
        assert(picks.take(i) =~= picks);
    }
}

} // verus!
