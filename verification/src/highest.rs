//! No hand scores more than twenty-nine.

use crate::card::Card;
use crate::hand::can_make_hand;
use crate::rules::{
    fifteens, hand_points, has_nobs, pair_points, rank_count, run_points, run_points_at,
    run_points_below, same_rank_pairs, same_suit, stretch_len, stretch_ways, ways,
};
use crate::score::{
    bucket_pairs, cards_below, lemma_bucket_pairs, lemma_bucket_pairs_skip,
    lemma_cards_below_step, lemma_rank_count_range, lemma_stretch_bounds, stretch_cards,
};
use vstd::prelude::*;

verus! {

/// One where the sum is fifteen.
spec fn hit(sum: int) -> int {
    if sum == 15 {
        1
    } else {
        0
    }
}

/// One where the value is five.
spec fn is_five(v: u8) -> int {
    if v == 5 {
        1
    } else {
        0
    }
}

/// The number of picks out of one value that make the sum fifteen: of
/// taking it, and of leaving it.
spec fn picks_of_one(e: u8, sum: int) -> int {
    hit(sum + e) + hit(sum)
}

/// The number of picks out of two values that make the sum fifteen.
spec fn picks_of_two(d: u8, e: u8, sum: int) -> int {
    picks_of_one(e, sum + d) + picks_of_one(e, sum)
}

/// The number of picks out of three values that make the sum fifteen.
spec fn picks_of_three(c: u8, d: u8, e: u8, sum: int) -> int {
    picks_of_two(d, e, sum + c) + picks_of_two(d, e, sum)
}

/// The number of picks out of four values that make the sum fifteen.
spec fn picks_of_four(b: u8, c: u8, d: u8, e: u8, sum: int) -> int {
    picks_of_three(c, d, e, sum + b) + picks_of_three(c, d, e, sum)
}

/// The number of picks out of five values that add up to fifteen.
spec fn fifteens_of_five(a: u8, b: u8, c: u8, d: u8, e: u8) -> int {
    picks_of_four(b, c, d, e, a as int) + picks_of_four(b, c, d, e, 0)
}

/// Five values between one and ten, not all of them five, add up to fifteen
/// in eight ways at most, and in eight ways only where four of them are
/// five.
proof fn lemma_eight_fifteens(a: u8, b: u8, c: u8, d: u8, e: u8)
    by (bit_vector)
    requires
        1 <= a <= 10,
        1 <= b <= 10,
        1 <= c <= 10,
        1 <= d <= 10,
        1 <= e <= 10,
        !(a == 5 && b == 5 && c == 5 && d == 5 && e == 5),
    ensures
        fifteens_of_five(a, b, c, d, e) <= 8,
        fifteens_of_five(a, b, c, d, e) == 8 ==> is_five(a) + is_five(b) + is_five(c) + is_five(d)
            + is_five(e) == 4,
{
}

/// What the rank at a position counts for in a fifteen.
spec fn points_at(rank: u8) -> u8 {
    if rank >= 9 {
        10
    } else {
        (rank + 1) as u8
    }
}

/// Whether the rank is one of the three that end at position `top`.
spec fn among_three(rank: u8, top: u8) -> bool {
    rank == top || rank + 1 == top || rank + 2 == top
}

/// Five cards of three ranks in a row, each of which one of them has, hold
/// six fifteens at most.
proof fn lemma_fifteens_in_three_ranks(a: u8, b: u8, c: u8, d: u8, e: u8, top: u8)
    by (bit_vector)
    requires
        2 <= top <= 12,
        among_three(a, top),
        among_three(b, top),
        among_three(c, top),
        among_three(d, top),
        among_three(e, top),
        a == top || b == top || c == top || d == top || e == top,
        a + 1 == top || b + 1 == top || c + 1 == top || d + 1 == top || e + 1 == top,
        a + 2 == top || b + 2 == top || c + 2 == top || d + 2 == top || e + 2 == top,
    ensures
        fifteens_of_five(points_at(a), points_at(b), points_at(c), points_at(d), points_at(e))
            <= 6,
{
}

/// The pair points of the stretch that ends at position `r`.
spec fn stretch_pairs(cards: Seq<Card>, r: int) -> int
    decreases r + 1,
{
    if r < 0 || rank_count(cards, r) == 0 {
        0
    } else {
        rank_count(cards, r) * (rank_count(cards, r) - 1) + stretch_pairs(cards, r - 1)
    }
}

/// What a stretch of up to five cards, no more than four of them of one
/// rank, can be: the number of its cards, its length, the ways to take one
/// card of each of its ranks, and its pair points.
spec fn stretch_shape(cards: int, len: int, ways: int, pairs: int) -> bool {
    ||| (cards == 0 && len == 0 && ways == 1 && pairs == 0)
    ||| (cards == 1 && len == 1 && ways == 1 && pairs == 0)
    ||| (cards == 2 && len == 1 && ways == 2 && pairs == 2)
    ||| (cards == 2 && len == 2 && ways == 1 && pairs == 0)
    ||| (cards == 3 && len == 1 && ways == 3 && pairs == 6)
    ||| (cards == 3 && len == 2 && ways == 2 && pairs == 2)
    ||| (cards == 3 && len == 3 && ways == 1 && pairs == 0)
    ||| (cards == 4 && len == 1 && ways == 4 && pairs == 12)
    ||| (cards == 4 && len == 2 && ways == 3 && pairs == 6)
    ||| (cards == 4 && len == 2 && ways == 4 && pairs == 4)
    ||| (cards == 4 && len == 3 && ways == 2 && pairs == 2)
    ||| (cards == 4 && len == 4 && ways == 1 && pairs == 0)
    ||| (cards == 5 && len == 2 && ways == 4 && pairs == 12)
    ||| (cards == 5 && len == 2 && ways == 6 && pairs == 8)
    ||| (cards == 5 && len == 3 && ways == 3 && pairs == 6)
    ||| (cards == 5 && len == 3 && ways == 4 && pairs == 4)
    ||| (cards == 5 && len == 4 && ways == 2 && pairs == 2)
    ||| (cards == 5 && len == 5 && ways == 1 && pairs == 0)
}

/// The most that the pairs and runs among so many cards are worth.
spec fn most(cards: int) -> int {
    if cards <= 1 {
        0
    } else if cards == 2 {
        2
    } else if cards == 3 {
        6
    } else if cards == 4 {
        12
    } else {
        16
    }
}

/// What holds of the pair points and the run points of so many cards.
spec fn within(cards: int, pairs: int, runs: int) -> bool {
    &&& 0 <= cards <= 5
    &&& 0 <= pairs
    &&& 0 <= runs
    &&& pairs + runs <= most(cards)
    &&& runs > 0 ==> cards >= 3
    &&& pairs == 0 ==> runs <= 5
    &&& pairs <= 2 ==> runs <= 8
}

/// Whether all five cards have one of the three ranks that end at position
/// `top`, and each of the three at least one of them.
spec fn three_ranks(cards: Seq<Card>, top: int) -> bool {
    &&& rank_count(cards, top) >= 1
    &&& rank_count(cards, top - 1) >= 1
    &&& rank_count(cards, top - 2) >= 1
    &&& rank_count(cards, top) + rank_count(cards, top - 1) + rank_count(cards, top - 2) == 5
}

/// Products of small numbers, as sums.
proof fn lemma_times(c: int, w: int)
    ensures
        c == 1 ==> c * w == w,
        c == 2 ==> c * w == 2 * w,
        c == 3 ==> c * w == 3 * w,
        c == 4 ==> c * w == 4 * w,
        c == 5 ==> c * w == 5 * w,
        w == 1 ==> c * w == c,
        w == 2 ==> c * w == 2 * c,
{
    assert(c == 1 ==> c * w == w) by (nonlinear_arith);
    assert(c == 2 ==> c * w == 2 * w) by (nonlinear_arith);
    assert(c == 3 ==> c * w == 3 * w) by (nonlinear_arith);
    assert(c == 4 ==> c * w == 4 * w) by (nonlinear_arith);
    assert(c == 5 ==> c * w == 5 * w) by (nonlinear_arith);
    assert(w == 1 ==> c * w == c) by (nonlinear_arith);
    assert(w == 2 ==> c * w == 2 * c) by (nonlinear_arith);
}

/// A stretch with the cards of one more rank is a stretch.
proof fn lemma_shape_grows(cards: int, len: int, ways: int, pairs: int, c: int)
    requires
        stretch_shape(cards, len, ways, pairs),
        1 <= c <= 4,
        cards + c <= 5,
    ensures
        stretch_shape(cards + c, len + 1, c * ways, pairs + c * (c - 1)),
{
    lemma_times(c, ways);
    lemma_times(c, c - 1);
}

/// The run points of a stretch once it has ended: none where it is shorter
/// than three ranks.
spec fn run_worth(len: int, ways: int) -> int {
    if len >= 3 {
        len * ways
    } else {
        0
    }
}

/// A stretch that ends adds its pair points and its run points to those of
/// the cards before it.
proof fn lemma_shape_ends(
    cards: int,
    len: int,
    ways: int,
    pairs: int,
    before: int,
    had_pairs: int,
    had_runs: int,
)
    requires
        stretch_shape(cards, len, ways, pairs),
        within(before, had_pairs, had_runs),
        before + cards <= 5,
    ensures
        within(before + cards, had_pairs + pairs, had_runs + run_worth(len, ways)),
        had_pairs + had_runs <= 12 && had_pairs + pairs + had_runs + run_worth(len, ways)
            > 12 ==> cards == 5 && len == 3,
{
    lemma_times(len, ways);
}

/// Rank by rank up to position `x`: the stretch that is open there is a
/// stretch, and the pairs and runs before it are within what so many cards
/// can be worth. Where they are worth more than twelve, the five cards have
/// the three ranks that end at the position returned.
proof fn lemma_scan(cards: Seq<Card>, x: int) -> (top: int)
    requires
        cards.len() == 5,
        forall|r: int| rank_count(cards, r) <= 4,
        0 <= x <= 14,
    ensures
        stretch_shape(
            stretch_cards(cards, x - 1) as int,
            stretch_len(cards, x - 1) as int,
            stretch_ways(cards, x - 1) as int,
            stretch_pairs(cards, x - 1),
        ),
        within(
            cards_below(cards, x) - stretch_cards(cards, x - 1),
            bucket_pairs(cards, x) - stretch_pairs(cards, x - 1),
            run_points_below(cards, x - 1) as int,
        ),
        bucket_pairs(cards, x) - stretch_pairs(cards, x - 1) + run_points_below(cards, x - 1) > 12
            ==> three_ranks(cards, top),
    decreases x,
{
    lemma_cards_below_step(cards, x);
    lemma_cards_below_step(cards, x - 1);
    if x == 0 {
        0
    } else {
        let before = lemma_scan(cards, x - 1);
        let c = rank_count(cards, x - 1) as int;
        let k = stretch_cards(cards, x - 2) as int;
        let l = stretch_len(cards, x - 2) as int;
        let w = stretch_ways(cards, x - 2) as int;
        let p = stretch_pairs(cards, x - 2);
        let o = cards_below(cards, x - 1) - k;
        let sp = bucket_pairs(cards, x - 1) - p;
        let sr = run_points_below(cards, x - 2) as int;
        lemma_stretch_bounds(cards, x - 2);
        assert(run_points_below(cards, x - 1) == run_points_below(cards, x - 2) + run_points_at(
            cards,
            x - 2,
        ));
        if c == 0 {
            lemma_shape_ends(k, l, w, p, o, sp, sr);
            assert(c * (c - 1) == 0) by (nonlinear_arith)
                requires
                    c == 0,
            ;
            if l >= 3 {
                assert(rank_count(cards, x - 2) > 0);
            }
            assert(run_points_at(cards, x - 2) == run_worth(l, w));
            if sp + sr > 12 {
                before
            } else if sp + p + sr + run_worth(l, w) > 12 {
                lemma_three(cards, x - 2);
                x - 2
            } else {
                0
            }
        } else {
            lemma_shape_grows(k, l, w, p, c);
            assert(run_points_at(cards, x - 2) == 0);
            before
        }
    }
}

/// A stretch of three ranks holds the cards of its three ranks.
proof fn lemma_three(cards: Seq<Card>, top: int)
    requires
        stretch_len(cards, top) == 3,
    ensures
        rank_count(cards, top) >= 1,
        rank_count(cards, top - 1) >= 1,
        rank_count(cards, top - 2) >= 1,
        stretch_cards(cards, top) == rank_count(cards, top) + rank_count(cards, top - 1)
            + rank_count(cards, top - 2),
{
    reveal_with_fuel(stretch_len, 4);
    reveal_with_fuel(stretch_cards, 4);
}

/// The number of ways to pick among the cards from position `i` on so that
/// they count for `target` together.
spec fn ways_from(cards: Seq<Card>, i: int, target: int) -> nat
    decreases cards.len() - i,
{
    if i < 0 || i >= cards.len() {
        if target == 0 {
            1
        } else {
            0
        }
    } else {
        ways_from(cards, i + 1, target - cards[i].points()) + ways_from(cards, i + 1, target)
    }
}

/// How many of the first `n` cards have the rank at position `r`.
spec fn count_to(cards: Seq<Card>, n: int, r: int) -> nat
    decreases n,
{
    if n <= 0 {
        0
    } else {
        count_to(cards, n - 1, r) + if cards[n - 1].rank.index() == r {
            1nat
        } else {
            0nat
        }
    }
}

/// The number of pairs of positions among the first `n` that hold cards of
/// one rank.
spec fn pairs_to(cards: Seq<Card>, n: int) -> nat
    decreases n,
{
    if n <= 0 {
        0
    } else {
        pairs_to(cards, n - 1) + count_to(cards, n - 1, cards[n - 1].rank.index())
    }
}

/// The picks among the cards from a position on are the picks among the
/// rest of the cards.
proof fn lemma_ways_from(cards: Seq<Card>, i: int, target: int)
    requires
        0 <= i <= cards.len(),
    ensures
        ways(cards.subrange(i, cards.len() as int), target) == ways_from(cards, i, target),
    decreases cards.len() - i,
{
    let rest = cards.subrange(i, cards.len() as int);
    if i < cards.len() {
        assert(rest.drop_first() =~= cards.subrange(i + 1, cards.len() as int));
        lemma_ways_from(cards, i + 1, target);
        lemma_ways_from(cards, i + 1, target - cards[i].points());
    }
}

/// The cards of a rank among the first `n` are counted one position after
/// the other.
proof fn lemma_count_to(cards: Seq<Card>, n: int, r: int)
    requires
        0 <= n <= cards.len(),
    ensures
        rank_count(cards.take(n), r) == count_to(cards, n, r),
    decreases n,
{
    if n > 0 {
        assert(cards.take(n).drop_last() =~= cards.take(n - 1));
        lemma_count_to(cards, n - 1, r);
    }
}

/// The pairs among the first `n` cards are counted one position after the
/// other.
proof fn lemma_pairs_to(cards: Seq<Card>, n: int)
    requires
        0 <= n <= cards.len(),
    ensures
        same_rank_pairs(cards.take(n)) == pairs_to(cards, n),
    decreases n,
{
    if n > 0 {
        assert(cards.take(n).drop_last() =~= cards.take(n - 1));
        lemma_pairs_to(cards, n - 1);
        lemma_count_to(cards, n - 1, cards[n - 1].rank.index());
    }
}

/// One where the card has the rank at position `r`.
spec fn has_rank(card: Card, r: int) -> int {
    if card.rank.index() == r {
        1
    } else {
        0
    }
}

/// One where the two cards are of one rank.
spec fn paired(a: Card, b: Card) -> int {
    if a.rank == b.rank {
        1
    } else {
        0
    }
}

/// Among the first cards of five, those of a rank are counted card by
/// card.
proof fn lemma_count_card_by_card(cards: Seq<Card>, r: int)
    requires
        cards.len() == 5,
    ensures
        count_to(cards, 1, r) == has_rank(cards[0], r),
        count_to(cards, 2, r) == has_rank(cards[0], r) + has_rank(cards[1], r),
        count_to(cards, 3, r) == has_rank(cards[0], r) + has_rank(cards[1], r) + has_rank(
            cards[2],
            r,
        ),
        count_to(cards, 4, r) == has_rank(cards[0], r) + has_rank(cards[1], r) + has_rank(
            cards[2],
            r,
        ) + has_rank(cards[3], r),
        count_to(cards, 5, r) == has_rank(cards[0], r) + has_rank(cards[1], r) + has_rank(
            cards[2],
            r,
        ) + has_rank(cards[3], r) + has_rank(cards[4], r),
{
    assert(count_to(cards, 0, r) == 0);
    assert(count_to(cards, 1, r) == count_to(cards, 0, r) + has_rank(cards[0], r));
    assert(count_to(cards, 2, r) == count_to(cards, 1, r) + has_rank(cards[1], r));
    assert(count_to(cards, 3, r) == count_to(cards, 2, r) + has_rank(cards[2], r));
    assert(count_to(cards, 4, r) == count_to(cards, 3, r) + has_rank(cards[3], r));
    assert(count_to(cards, 5, r) == count_to(cards, 4, r) + has_rank(cards[4], r));
}

/// Among five cards, those of a rank are counted card by card.
proof fn lemma_count_of_five(cards: Seq<Card>, r: int)
    requires
        cards.len() == 5,
    ensures
        rank_count(cards, r) == has_rank(cards[0], r) + has_rank(cards[1], r) + has_rank(
            cards[2],
            r,
        ) + has_rank(cards[3], r) + has_rank(cards[4], r),
{
    lemma_count_to(cards, 5, r);
    assert(cards.take(5) =~= cards);
    lemma_count_card_by_card(cards, r);
}

/// Among five cards, the pairs are counted pair by pair.
proof fn lemma_pairs_of_five(cards: Seq<Card>)
    requires
        cards.len() == 5,
    ensures
        same_rank_pairs(cards) == paired(cards[0], cards[1]) + paired(cards[0], cards[2]) + paired(
            cards[1],
            cards[2],
        ) + paired(cards[0], cards[3]) + paired(cards[1], cards[3]) + paired(cards[2], cards[3])
            + paired(cards[0], cards[4]) + paired(cards[1], cards[4]) + paired(cards[2], cards[4])
            + paired(cards[3], cards[4]),
{
    lemma_pairs_to(cards, 5);
    assert(cards.take(5) =~= cards);
    lemma_count_card_by_card(cards, cards[1].rank.index());
    lemma_count_card_by_card(cards, cards[2].rank.index());
    lemma_count_card_by_card(cards, cards[3].rank.index());
    lemma_count_card_by_card(cards, cards[4].rank.index());
    lemma_paired(cards[0], cards[1]);
    lemma_paired(cards[0], cards[2]);
    lemma_paired(cards[1], cards[2]);
    lemma_paired(cards[0], cards[3]);
    lemma_paired(cards[1], cards[3]);
    lemma_paired(cards[2], cards[3]);
    lemma_paired(cards[0], cards[4]);
    lemma_paired(cards[1], cards[4]);
    lemma_paired(cards[2], cards[4]);
    lemma_paired(cards[3], cards[4]);
    assert(pairs_to(cards, 0) == 0);
    assert(count_to(cards, 0, cards[0].rank.index()) == 0);
    assert(pairs_to(cards, 1) == pairs_to(cards, 0) + count_to(cards, 0, cards[0].rank.index()));
    assert(pairs_to(cards, 2) == pairs_to(cards, 1) + count_to(cards, 1, cards[1].rank.index()));
    assert(pairs_to(cards, 3) == pairs_to(cards, 2) + count_to(cards, 2, cards[2].rank.index()));
    assert(pairs_to(cards, 4) == pairs_to(cards, 3) + count_to(cards, 3, cards[3].rank.index()));
    assert(pairs_to(cards, 5) == pairs_to(cards, 4) + count_to(cards, 4, cards[4].rank.index()));
}

/// Two cards are paired where the first has the rank of the second.
proof fn lemma_paired(a: Card, b: Card)
    ensures
        has_rank(a, b.rank.index()) == paired(a, b),
{
}

/// Among five cards, the fifteens are counted pick by pick.
proof fn lemma_fifteens_of_five(cards: Seq<Card>)
    requires
        cards.len() == 5,
    ensures
        fifteens(cards) == fifteens_of_five(
            cards[0].points() as u8,
            cards[1].points() as u8,
            cards[2].points() as u8,
            cards[3].points() as u8,
            cards[4].points() as u8,
        ),
{
    lemma_ways_from(cards, 0, 15);
    assert(cards.subrange(0, 5) =~= cards);
    lemma_rank_of_index(cards[0], cards[0]);
    lemma_rank_of_index(cards[1], cards[1]);
    lemma_rank_of_index(cards[2], cards[2]);
    lemma_rank_of_index(cards[3], cards[3]);
    lemma_rank_of_index(cards[4], cards[4]);
    let a = cards[0].points() as u8;
    lemma_picks_of_four(cards, a as int);
    lemma_picks_of_four(cards, 0);
}

/// The picks out of the last of five cards.
proof fn lemma_picks_of_one(cards: Seq<Card>, sum: int)
    requires
        cards.len() == 5,
    ensures
        ways_from(cards, 4, 15 - sum) == picks_of_one(cards[4].points() as u8, sum),
{
    lemma_rank_of_index(cards[4], cards[4]);
    reveal_with_fuel(ways_from, 2);
}

/// The picks out of the last two of five cards.
proof fn lemma_picks_of_two(cards: Seq<Card>, sum: int)
    requires
        cards.len() == 5,
    ensures
        ways_from(cards, 3, 15 - sum) == picks_of_two(
            cards[3].points() as u8,
            cards[4].points() as u8,
            sum,
        ),
{
    lemma_rank_of_index(cards[3], cards[3]);
    lemma_picks_of_one(cards, sum + cards[3].points());
    lemma_picks_of_one(cards, sum);
}

/// The picks out of the last three of five cards.
proof fn lemma_picks_of_three(cards: Seq<Card>, sum: int)
    requires
        cards.len() == 5,
    ensures
        ways_from(cards, 2, 15 - sum) == picks_of_three(
            cards[2].points() as u8,
            cards[3].points() as u8,
            cards[4].points() as u8,
            sum,
        ),
{
    lemma_rank_of_index(cards[2], cards[2]);
    lemma_picks_of_two(cards, sum + cards[2].points());
    lemma_picks_of_two(cards, sum);
}

/// The picks out of the last four of five cards.
proof fn lemma_picks_of_four(cards: Seq<Card>, sum: int)
    requires
        cards.len() == 5,
    ensures
        ways_from(cards, 1, 15 - sum) == picks_of_four(
            cards[1].points() as u8,
            cards[2].points() as u8,
            cards[3].points() as u8,
            cards[4].points() as u8,
            sum,
        ),
{
    lemma_rank_of_index(cards[1], cards[1]);
    lemma_picks_of_three(cards, sum + cards[1].points());
    lemma_picks_of_three(cards, sum);
}

/// Of five different cards no more than four have one rank.
proof fn lemma_four_of_a_rank(cards: Seq<Card>, r: int)
    requires
        cards.len() == 5,
        cards.no_duplicates(),
    ensures
        rank_count(cards, r) <= 4,
{
    lemma_count_of_five(cards, r);
    if rank_count(cards, r) == 5 {
        let s0 = cards[0].suit.index();
        let s1 = cards[1].suit.index();
        let s2 = cards[2].suit.index();
        let s3 = cards[3].suit.index();
        let s4 = cards[4].suit.index();
        assert(cards[0] != cards[1] && cards[0] != cards[2] && cards[0] != cards[3] && cards[0]
            != cards[4]);
        assert(cards[1] != cards[2] && cards[1] != cards[3] && cards[1] != cards[4]);
        assert(cards[2] != cards[3] && cards[2] != cards[4] && cards[3] != cards[4]);
        assert(cards[0].rank == cards[1].rank && cards[0].rank == cards[2].rank && cards[0].rank
            == cards[3].rank && cards[0].rank == cards[4].rank) by {
            lemma_rank_of_index(cards[0], cards[1]);
            lemma_rank_of_index(cards[0], cards[2]);
            lemma_rank_of_index(cards[0], cards[3]);
            lemma_rank_of_index(cards[0], cards[4]);
        }
        assert(s0 != s1 && s0 != s2 && s0 != s3 && s0 != s4 && s1 != s2 && s1 != s3 && s1 != s4
            && s2 != s3 && s2 != s4 && s3 != s4);
        assert(false);
    }
}

/// Ranks and suits are told apart by their positions, and a card counts
/// for what the rank at its position counts for.
proof fn lemma_rank_of_index(a: Card, b: Card)
    ensures
        a.rank.index() == b.rank.index() <==> a.rank == b.rank,
        a.suit.index() == b.suit.index() <==> a.suit == b.suit,
        0 <= a.rank.index() <= 12,
        0 <= a.suit.index() <= 3,
        1 <= a.points() <= 10,
        a.points() == 5 <==> a.rank.index() == 4,
        a.points() == points_at(a.rank.index() as u8),
{
}

/// Whether the card has one of the three ranks that end at position `top`.
spec fn in_three(card: Card, top: int) -> bool {
    top - 2 <= card.rank.index() <= top
}

/// Where five cards have three ranks in a row between them, each card has
/// one of the three.
proof fn lemma_in_three_ranks(cards: Seq<Card>, top: int)
    requires
        cards.len() == 5,
        three_ranks(cards, top),
    ensures
        2 <= top <= 12,
        in_three(cards[0], top) && in_three(cards[1], top) && in_three(cards[2], top) && in_three(
            cards[3],
            top,
        ) && in_three(cards[4], top),
        has_rank(cards[0], top) + has_rank(cards[1], top) + has_rank(cards[2], top) + has_rank(
            cards[3],
            top,
        ) + has_rank(cards[4], top) >= 1,
        has_rank(cards[0], top - 1) + has_rank(cards[1], top - 1) + has_rank(cards[2], top - 1)
            + has_rank(cards[3], top - 1) + has_rank(cards[4], top - 1) >= 1,
        has_rank(cards[0], top - 2) + has_rank(cards[1], top - 2) + has_rank(cards[2], top - 2)
            + has_rank(cards[3], top - 2) + has_rank(cards[4], top - 2) >= 1,
{
    lemma_rank_count_range(cards, top);
    lemma_rank_count_range(cards, top - 2);
    lemma_count_of_five(cards, top);
    lemma_count_of_five(cards, top - 1);
    lemma_count_of_five(cards, top - 2);
    assert(has_rank(cards[0], top) + has_rank(cards[0], top - 1) + has_rank(cards[0], top - 2)
        <= 1);
    assert(has_rank(cards[1], top) + has_rank(cards[1], top - 1) + has_rank(cards[1], top - 2)
        <= 1);
    assert(has_rank(cards[2], top) + has_rank(cards[2], top - 1) + has_rank(cards[2], top - 2)
        <= 1);
    assert(has_rank(cards[3], top) + has_rank(cards[3], top - 1) + has_rank(cards[3], top - 2)
        <= 1);
    assert(has_rank(cards[4], top) + has_rank(cards[4], top - 1) + has_rank(cards[4], top - 2)
        <= 1);
}

/// Five cards of three ranks in a row, each of which one of them has, hold
/// six fifteens at most.
proof fn lemma_three_ranks_fifteens(cards: Seq<Card>, top: int)
    requires
        cards.len() == 5,
        three_ranks(cards, top),
    ensures
        fifteens(cards) <= 6,
{
    lemma_in_three_ranks(cards, top);
    lemma_fifteens_of_five(cards);
    let a = cards[0].rank.index() as u8;
    let b = cards[1].rank.index() as u8;
    let c = cards[2].rank.index() as u8;
    let d = cards[3].rank.index() as u8;
    let e = cards[4].rank.index() as u8;
    let t = top as u8;
    lemma_rank_of_index(cards[0], cards[0]);
    lemma_rank_of_index(cards[1], cards[1]);
    lemma_rank_of_index(cards[2], cards[2]);
    lemma_rank_of_index(cards[3], cards[3]);
    lemma_rank_of_index(cards[4], cards[4]);
    assert(among_three(a, t) && among_three(b, t) && among_three(c, t) && among_three(d, t)
        && among_three(e, t));
    assert(a == t || b == t || c == t || d == t || e == t);
    assert(a + 1 == t || b + 1 == t || c + 1 == t || d + 1 == t || e + 1 == t);
    assert(a + 2 == t || b + 2 == t || c + 2 == t || d + 2 == t || e + 2 == t);
    lemma_fifteens_in_three_ranks(a, b, c, d, e, t);
    assert(points_at(a) == cards[0].points() as u8);
    assert(points_at(b) == cards[1].points() as u8);
    assert(points_at(c) == cards[2].points() as u8);
    assert(points_at(d) == cards[3].points() as u8);
    assert(points_at(e) == cards[4].points() as u8);
}

/// Five different cards hold eight fifteens at most, and eight only where
/// four of them are fives.
proof fn lemma_most_fifteens(cards: Seq<Card>)
    requires
        cards.len() == 5,
        cards.no_duplicates(),
    ensures
        fifteens(cards) <= 8,
        fifteens(cards) == 8 ==> rank_count(cards, 4) == 4,
{
    lemma_four_of_a_rank(cards, 4);
    lemma_count_of_five(cards, 4);
    lemma_fifteens_of_five(cards);
    lemma_rank_of_index(cards[0], cards[0]);
    lemma_rank_of_index(cards[1], cards[1]);
    lemma_rank_of_index(cards[2], cards[2]);
    lemma_rank_of_index(cards[3], cards[3]);
    lemma_rank_of_index(cards[4], cards[4]);
    lemma_eight_fifteens(
        cards[0].points() as u8,
        cards[1].points() as u8,
        cards[2].points() as u8,
        cards[3].points() as u8,
        cards[4].points() as u8,
    );
}

/// Held cards of one suit differ in rank: with the cut they make one pair
/// at most and hold two fives at most, and no pair where the cut is of
/// their suit. Where the cut is of another suit, no held jack is of the
/// cut's suit.
proof fn lemma_flush(held: Seq<Card>, cut: Card)
    requires
        can_make_hand(held, cut),
        same_suit(held),
    ensures
        pair_points(held.push(cut)) <= 2,
        rank_count(held.push(cut), 4) <= 2,
        cut.suit == held[0].suit ==> pair_points(held.push(cut)) == 0,
        cut.suit != held[0].suit ==> !has_nobs(held, cut),
{
    let all = held.push(cut);
    lemma_pairs_of_five(all);
    lemma_count_of_five(all, 4);
    assert(held[0] != held[1] && held[0] != held[2] && held[0] != held[3] && held[1] != held[2]
        && held[1] != held[3] && held[2] != held[3]);
    assert(held[0].suit == held[0].suit && held[1].suit == held[0].suit && held[2].suit
        == held[0].suit && held[3].suit == held[0].suit);
    assert(held.contains(held[0]) && held.contains(held[1]) && held.contains(held[2])
        && held.contains(held[3]));
    lemma_rank_of_index(held[0], held[1]);
    lemma_rank_of_index(held[0], held[2]);
    lemma_rank_of_index(held[0], held[3]);
    lemma_rank_of_index(held[1], held[2]);
    lemma_rank_of_index(held[1], held[3]);
    lemma_rank_of_index(held[2], held[3]);
    lemma_rank_of_index(held[0], cut);
    lemma_rank_of_index(held[1], cut);
    lemma_rank_of_index(held[2], cut);
    lemma_rank_of_index(held[3], cut);
}

/// No hand scores more than twenty-nine.
pub proof fn lemma_highest_score(held: Seq<Card>, cut: Card)
    requires
        can_make_hand(held, cut),
    ensures
        0 <= hand_points(held, cut) <= 29,
{
    let all = held.push(cut);
    assert(all.no_duplicates()) by {
        assert forall|i: int, j: int| 0 <= i < all.len() && 0 <= j < all.len() && i != j implies all[i]
            != all[j] by {
            if i < 4 {
                assert(held.contains(held[i]));
            }
            if j < 4 {
                assert(held.contains(held[j]));
            }
        }
    }
    assert forall|r: int| rank_count(all, r) <= 4 by {
        lemma_four_of_a_rank(all, r);
    }
    let top = lemma_scan(all, 14);
    lemma_rank_count_range(all, 13);
    lemma_bucket_pairs(all);
    lemma_bucket_pairs_skip(all, 13);
    lemma_cards_below_step(all, 14);
    assert(stretch_cards(all, 13) == 0 && stretch_pairs(all, 13) == 0);
    let pairs = pair_points(all) as int;
    let runs = run_points(all) as int;
    assert(within(5, pairs, runs));
    lemma_most_fifteens(all);
    if pairs + runs > 12 {
        lemma_three_ranks_fifteens(all, top);
    }
    if same_suit(held) {
        lemma_flush(held, cut);
    }
}

} // verus!
