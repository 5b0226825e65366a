//! The scorable hand: four held cards in canonical order, and the cut.

use crate::card::{Card, ParseError, Rank, Suit};
use crate::highest::lemma_highest_score;
use crate::rules::{
    flush_points, hand_points, kept_points, nobs_points, rank_count, rank_points, run_points_at,
    run_points_below, stretch_len, stretch_ways,
};
use crate::score::{
    bucket_pairs, cards, count_fifteens, lemma_bucket_pairs, lemma_bucket_pairs_skip,
    lemma_cards_below_step, lemma_rank_count_range, lemma_stretch_bounds, lemma_ways_bound,
    stretch_cards,
};
use vstd::arithmetic::power2::{lemma2_to64, lemma_pow2_strictly_increases};
use vstd::prelude::*;
use vstd::relations::{sorted_by, total_ordering};
use vstd::seq_lib::lemma_sorted_unique;
use vstd::string::*;

verus! {

/// A scorable hand of cards.
///
/// In cribbage, hands that can score points consist of four cards held by a
/// player and the "cut" card revealed after hands are dealt and the crib
/// cards are chosen. This struct holds the four cards that a player holds in
/// their hand (called `hand`) and the card that was flipped after the deal
/// (called `cut`).
#[derive(Eq, PartialEq, Debug, Clone, Copy, Hash)]
pub struct Hand {
    pub hand: [Card; 4],
    pub cut: Card,
}

/// Why no hand was made.
#[derive(Eq, PartialEq, Debug, Clone, Copy, Structural)]
pub enum HandError {
    /// A string is not the code of a card.
    Parse(ParseError),
    /// The held cards are not four different cards, or the cut is one of
    /// them.
    InvalidHand,
}

impl Card {
    /// Where the card stands in the order that hands are kept in: by suit,
    /// and by rank within a suit.
    #[verifier::opaque]
    pub open spec fn order_key(self) -> int {
        self.suit.index() * 13 + self.rank.index()
    }

    /// The card's place in the order that hands are kept in.
    pub fn sort_key(self) -> (k: u8)
        ensures
            k == self.order_key(),
            k < 52,
    {
        reveal(Card::order_key);
        let s: u8 = match self.suit {
            Suit::Heart => 0,
            Suit::Spade => 1,
            Suit::Diamond => 2,
            Suit::Club => 3,
        };
        let m = self.mask();
        assert(m < 13);
        s * 13 + (m as u8)
    }
}

/// The order that hands are kept in, as a relation.
pub open spec fn card_order() -> spec_fn(Card, Card) -> bool {
    |a: Card, b: Card| a.order_key() <= b.order_key()
}

/// The held cards in the order that a hand keeps them in.
pub open spec fn canonical(held: Seq<Card>) -> Seq<Card> {
    held.sort_by(card_order())
}

/// Whether four held cards and a cut can make a hand: five different cards.
pub open spec fn can_make_hand(held: Seq<Card>, cut: Card) -> bool {
    &&& held.len() == 4
    &&& held.no_duplicates()
    &&& !held.contains(cut)
}

/// What a sequence of strings reads as: the cards, or the reason why the
/// first string that is not a card's code is none.
pub open spec fn parse_cards(codes: Seq<Seq<char>>) -> Result<Seq<Card>, ParseError>
    decreases codes.len(),
{
    if codes.len() == 0 {
        Ok(Seq::<Card>::empty())
    } else {
        match parse_cards(codes.drop_last()) {
            Err(e) => Err(e),
            Ok(cards) => match Card::parse(codes.last()) {
                Err(e) => Err(e),
                Ok(card) => Ok(cards.push(card)),
            },
        }
    }
}

/// The order that hands are kept in puts any two cards in order, and only
/// a card with itself both ways.
pub proof fn lemma_card_order_total()
    ensures
        total_ordering(card_order()),
{
    assert forall|a: Card, b: Card| a.order_key() == b.order_key() implies a == b by {
        lemma_order_key_injective(a, b);
    }
}

impl Hand {
    /// The held cards are in canonical order.
    pub open spec fn is_canonical(self) -> bool {
        sorted_by(self.hand@, card_order())
    }

    /// The held cards are four different cards and the cut is none of them.
    pub open spec fn valid(self) -> bool {
        can_make_hand(self.hand@, self.cut)
    }

    /// What the hand scores.
    pub open spec fn points(self) -> int {
        hand_points(self.hand@, self.cut)
    }

    /// Whether `r` is what making a hand of `held` and `cut` gives: the
    /// hand that keeps the held cards in canonical order, or the error where
    /// they cannot make a hand.
    pub open spec fn made_of(r: Result<Hand, HandError>, held: Seq<Card>, cut: Card) -> bool {
        match r {
            Ok(hand) => {
                &&& can_make_hand(held, cut)
                &&& hand.hand@ == canonical(held)
                &&& hand.cut == cut
            },
            Err(e) => e == HandError::InvalidHand && !can_make_hand(held, cut),
        }
    }

    /// Whether `r` is what reading a hand from the codes of the held cards
    /// and of the cut gives. The strings are read in turn, the held cards
    /// before the cut, and the first that is no card's code is the error;
    /// where all are cards, the hand is made of them.
    pub open spec fn read_of(r: Result<Hand, HandError>, held: Seq<Seq<char>>, cut: Seq<char>) -> bool {
        match parse_cards(held) {
            Err(e) => r == Err::<Hand, HandError>(HandError::Parse(e)),
            Ok(cards) => match Card::parse(cut) {
                Err(e) => r == Err::<Hand, HandError>(HandError::Parse(e)),
                Ok(card) => Hand::made_of(r, cards, card),
            },
        }
    }

    /// The hand's string form: the held cards in brackets, then the cut.
    pub open spec fn code(self) -> Seq<char> {
        seq!['['] + self.hand@[0].code() + seq![' '] + self.hand@[1].code() + seq![' ']
            + self.hand@[2].code() + seq![' '] + self.hand@[3].code() + seq![']', ' ']
            + self.cut.code()
    }

    /// Writes the hand as the held cards in brackets, then the cut.
    pub fn to_string(&self) -> (r: String)
        ensures
            r@ == self.code(),
    {
        proof {
            reveal_strlit("[");
            reveal_strlit(" ");
            reveal_strlit("] ");
        }
        let mut r = String::from_str("[");
        r.append(self.hand[0].to_string().as_str());
        r.append(" ");
        r.append(self.hand[1].to_string().as_str());
        r.append(" ");
        r.append(self.hand[2].to_string().as_str());
        r.append(" ");
        r.append(self.hand[3].to_string().as_str());
        r.append("] ");
        r.append(self.cut.to_string().as_str());
        assert(r@ =~= self.code());
        r
    }

    /// Constructs a new hand from a list of strings.
    ///
    /// The strings are read in turn, the held cards before the cut; the
    /// first that is not a card's code is the error.
    pub fn new(cs: &[&str], c: &str) -> (r: Result<Hand, HandError>)
        ensures
            Hand::read_of(r, cs@.map_values(|s: &str| s@), c@),
            r matches Ok(hand) ==> hand.valid() && hand.is_canonical(),
    {
        let ghost codes = cs@.map_values(|s: &str| s@);
        let mut held: Vec<Card> = Vec::new();
        let mut i: usize = 0;
        while i < cs.len()
            invariant
                i <= cs@.len(),
                codes == cs@.map_values(|s: &str| s@),
                parse_cards(codes.take(i as int)) == Ok::<Seq<Card>, ParseError>(held@),
            decreases cs@.len() - i,
        {
            proof {
                assert(codes.take(i + 1).drop_last() =~= codes.take(i as int));
                assert(codes.take(i + 1).last() == cs@[i as int]@);
            }
            match Card::from_str(cs[i]) {
                Ok(card) => {
                    held.push(card);
                },
                Err(e) => {
                    proof {
                        lemma_parse_cards_fails(codes, i + 1);
                    }
                    return Err(HandError::Parse(e));
                },
            }
            i += 1;
        }
        proof {
            assert(codes.take(i as int) =~= codes);
        }
        match Card::from_str(c) {
            Ok(cut) => Hand::from_cards(held, cut),
            Err(e) => Err(HandError::Parse(e)),
        }
    }

    /// Constructs a new hand from a list of cards.
    ///
    /// The held cards are sorted, so that two hands of the same cards are
    /// equal and hash alike whatever order the cards were given in.
    pub fn from_cards(h: Vec<Card>, cut: Card) -> (r: Result<Hand, HandError>)
        ensures
            Hand::made_of(r, h@, cut),
            r matches Ok(hand) ==> hand.valid() && hand.is_canonical(),
    {
        if h.len() != 4 {
            return Err(HandError::InvalidHand);
        }
        let v = sort_cards(&h);
        proof {
            lemma_same_cards(h@, v@, cut);
        }
        // After sorting, equal cards are neighbours.
        let k0 = v[0].sort_key();
        let k1 = v[1].sort_key();
        let k2 = v[2].sort_key();
        let k3 = v[3].sort_key();
        let kc = cut.sort_key();
        proof {
            lemma_card_order_total();
            lemma_order_key_injective(v@[0], v@[1]);
            lemma_order_key_injective(v@[1], v@[2]);
            lemma_order_key_injective(v@[2], v@[3]);
            lemma_order_key_injective(cut, v@[0]);
            lemma_order_key_injective(cut, v@[1]);
            lemma_order_key_injective(cut, v@[2]);
            lemma_order_key_injective(cut, v@[3]);
            assert(card_order()(v@[0], v@[1]));
            assert(card_order()(v@[1], v@[2]));
            assert(card_order()(v@[2], v@[3]));
            if v@.contains(cut) {
                let i = choose|i: int| 0 <= i < v@.len() && v@[i] == cut;
                assert(v@[i].order_key() == kc);
            }
        }
        if k0 == k1 || k1 == k2 || k2 == k3 || kc == k0 || kc == k1 || kc == k2 || kc == k3 {
            return Err(HandError::InvalidHand);
        }
        let hand = [v[0], v[1], v[2], v[3]];
        assert(hand@ =~= v@);
        Ok(Hand { hand, cut })
    }

    /// This is where we score a hand given a specific cut card.
    ///
    /// Points are scored in many different ways:
    /// - Four Card Flush: If the four cards in the hand are the same suit,
    ///     the player scores four points
    /// - Five Card Flush: If the player has a Four Card Flush and the cut
    ///     is the same suit, then the player scores an additional point.
    /// - Nobs: The player scores a point if they have the Jack of the
    ///     same suit as the cut card
    /// - Fifteens: The player scores two points for all combinations of
    ///     cards whose values sum to 15 (face cards are all 10).
    /// - Runs: The player scores a point for each card participating in
    ///     a run of three or more cards (face cards maintain their rank).
    /// - Pairs: The player scores two points for all pairs of cards
    ///     with the same value.
    ///
    /// For Fifteens, Runs, and Pairs, the cut and the player's hand cards
    /// are all treated the same way.
    pub fn score(&self) -> (s: usize)
        ensures
            s == self.points(),
            self.valid() ==> s <= 29,
    {
        proof {
            if self.valid() {
                lemma_highest_score(self.hand@, self.cut);
            }
        }
        let mut s: usize = 0;

        // flush
        let mut flush = true;
        let mut nobs = false;
        for i in 0..4
            invariant
                flush == (forall|j: int| 0 <= j < i ==> (#[trigger] self.hand@[j]).suit
                    == self.hand@[0].suit),
                nobs == (exists|j: int|
                    0 <= j < i && (#[trigger] self.hand@[j]).rank == Rank::Jack && self.hand@[j].suit
                        == self.cut.suit),
        {
            if self.hand[i].suit != self.hand[0].suit {
                flush = false;
            }
            // player has a Jack matching suit of cut
            if self.hand[i].suit == self.cut.suit && self.hand[i].rank == Rank::Jack {
                nobs = true;
            }
        }
        if flush {
            // four card flush
            s += 4;
            if self.hand[0].suit == self.cut.suit {
                // five card flush
                s += 1;
            }
        }
        if nobs {
            s += 1;
        }
        assert(s == flush_points(self.hand@, self.cut) + nobs_points(self.hand@, self.cut));

        // construct full hand for cut-agnostic calculations
        let full_hand = cards(self);
        s + tally(&full_hand)
    }

    /// The score of four cards as they stand, before a cut is known: the
    /// four-card flush, and the fifteens, runs and pairs among the four.
    pub fn score_nocut(cards: &Vec<Card>) -> (s: usize)
        requires
            cards@.len() == 4,
        ensures
            s == kept_points(cards@),
    {
        let mut flush = true;
        for i in 0..4
            invariant
                cards@.len() == 4,
                flush == (forall|j: int| 0 <= j < i ==> (#[trigger] cards@[j]).suit
                    == cards@[0].suit),
        {
            if cards[i].suit != cards[0].suit {
                flush = false;
            }
        }
        let s: usize = if flush {
            4
        } else {
            0
        };
        s + tally(cards)
    }
}

/// What the fifteens, the pairs and the runs among up to five cards are
/// worth together.
fn tally(full_hand: &Vec<Card>) -> (s: usize)
    requires
        full_hand@.len() <= 5,
    ensures
        s == rank_points(full_hand@),
        s <= 3000,
{
    // each subset of cards that total fifteen is worth 2 points
    let n = count_fifteens(full_hand);
    proof {
        lemma_ways_bound(full_hand@, 15);
        lemma2_to64();
        if full_hand@.len() < 5 {
            lemma_pow2_strictly_increases(full_hand@.len(), 5);
        }
    }
    let mut s: usize = n * 2;

    // score tallying only happens when an empty bucket is encountered;
    // this means the list of buckets should be one longer than the
    // number of possible ranks so that we can catch runs ending with the
    // high card (Kings)
    let mut buckets: [usize; 14] = [0; 14];
    for i in 0..full_hand.len()
        invariant
            full_hand@.len() <= 5,
            forall|r: int|
                0 <= r < 14 ==> #[trigger] buckets@[r] == rank_count(full_hand@.take(i as int), r),
    {
        let m = full_hand[i].mask();
        proof {
            assert(full_hand@.take(i + 1).drop_last() =~= full_hand@.take(i as int));
            lemma_rank_count_range(full_hand@.take(i as int), m as int);
        }
        buckets[m] += 1;
    }
    proof {
        assert(full_hand@.take(full_hand@.len() as int) =~= full_hand@);
        lemma_rank_count_range(full_hand@, 13);
    }

    let ghost base = s as int;
    let mut curr_run_len: usize = 0;
    let mut curr_run_combos: usize = 1;
    for i in 0..14
        invariant
            full_hand@.len() <= 5,
            base <= 70,
            forall|r: int| 0 <= r < 14 ==> #[trigger] buckets@[r] == rank_count(full_hand@, r),
            curr_run_len == stretch_len(full_hand@, i - 1),
            curr_run_combos == stretch_ways(full_hand@, i - 1),
            s == base + bucket_pairs(full_hand@, i as int) + run_points_below(full_hand@, i - 1),
            s <= base + 20 * i + 160 * i,
    {
        let b = buckets[i];
        proof {
            lemma_rank_count_range(full_hand@, i as int);
            lemma_stretch_bounds(full_hand@, i - 1);
            lemma_stretch_bounds(full_hand@, i as int);
            lemma_cards_below_step(full_hand@, i as int);
            lemma_cards_below_step(full_hand@, i + 1);
            lemma2_to64();
            if stretch_cards(full_hand@, i - 1) < 5 {
                lemma_pow2_strictly_increases(stretch_cards(full_hand@, i - 1), 5);
            }
            if stretch_cards(full_hand@, i as int) < 5 {
                lemma_pow2_strictly_increases(stretch_cards(full_hand@, i as int), 5);
            }
            assert(b * (b - 1) <= 20) by (nonlinear_arith)
                requires
                    0 <= b <= 5,
            ;
            assert(curr_run_len * curr_run_combos <= 160) by (nonlinear_arith)
                requires
                    0 <= curr_run_len <= 5,
                    0 <= curr_run_combos <= 32,
            ;
            assert(curr_run_combos * b == b * curr_run_combos) by (nonlinear_arith);
            if b == 0 {
                lemma_bucket_pairs_skip(full_hand@, i as int);
            } else {
                assert(run_points_at(full_hand@, i - 1) == 0);
                assert(stretch_ways(full_hand@, i as int) == b * curr_run_combos);
            }
            assert(run_points_below(full_hand@, i as int) == run_points_below(full_hand@, i - 1)
                + run_points_at(full_hand@, i - 1));
        }
        if b > 0 {
            // calculate score of pairs
            s += b * (b - 1);
            // track number in current run
            curr_run_len += 1;
            // track number of different combos from this run
            curr_run_combos *= b;
        } else {
            if curr_run_len > 2 {
                // points for this run is length of run times number of
                // combos that can make it
                s += curr_run_len * curr_run_combos;
            }
            // reset counters
            curr_run_len = 0;
            curr_run_combos = 1;
        }
    }
    proof {
        lemma_bucket_pairs(full_hand@);
        lemma_rank_count_range(full_hand@, 13);
        lemma_bucket_pairs_skip(full_hand@, 13);
    }
    s
}

/// The number under which a hand of these held cards and this cut is kept
/// in a table: the five cards' places in the order of hands, read as the
/// digits of a number to the base 52.
pub open spec fn key_of(held: Seq<Card>, cut: Card) -> int {
    (((held[0].order_key() * 52 + held[1].order_key()) * 52 + held[2].order_key()) * 52
        + held[3].order_key()) * 52 + cut.order_key()
}

impl Hand {
    /// The number under which the hand is kept in a table.
    pub open spec fn spec_key(self) -> int {
        key_of(self.hand@, self.cut)
    }

    /// The number under which the hand is kept in a table.
    pub fn key(&self) -> (k: u64)
        ensures
            k == self.spec_key(),
    {
        let k0 = self.hand[0].sort_key() as u64;
        let k1 = self.hand[1].sort_key() as u64;
        let k2 = self.hand[2].sort_key() as u64;
        let k3 = self.hand[3].sort_key() as u64;
        let kc = self.cut.sort_key() as u64;
        (((k0 * 52 + k1) * 52 + k2) * 52 + k3) * 52 + kc
    }
}

/// Every hand has a key of its own, and every key fits in 64 bits.
pub proof fn lemma_key_injective(a: Hand, b: Hand)
    ensures
        0 <= a.spec_key() < 380_204_032,
        a.spec_key() == b.spec_key() ==> a == b,
{
    lemma_key_digits(a.hand@, a.cut, b.hand@, b.cut);
    if a.spec_key() == b.spec_key() {
        lemma_order_key_injective(a.cut, b.cut);
        lemma_order_key_injective(a.hand@[0], b.hand@[0]);
        lemma_order_key_injective(a.hand@[1], b.hand@[1]);
        lemma_order_key_injective(a.hand@[2], b.hand@[2]);
        lemma_order_key_injective(a.hand@[3], b.hand@[3]);
        assert(a.hand =~= b.hand);
    }
}

/// Two hands are kept under one key only where they are made of the same
/// held cards, in whatever order, and of the same cut.
pub proof fn lemma_same_key(
    a: Hand,
    b: Hand,
    held_a: Seq<Card>,
    cut_a: Card,
    held_b: Seq<Card>,
    cut_b: Card,
)
    requires
        Hand::made_of(Ok(a), held_a, cut_a),
        Hand::made_of(Ok(b), held_b, cut_b),
    ensures
        a.spec_key() == b.spec_key() <==> held_a.to_multiset() == held_b.to_multiset() && cut_a
            == cut_b,
{
    lemma_card_order_total();
    held_a.lemma_sort_by_ensures(card_order());
    held_b.lemma_sort_by_ensures(card_order());
    lemma_key_injective(a, b);
    if held_a.to_multiset() == held_b.to_multiset() && cut_a == cut_b {
        lemma_order_independent(Ok(a), Ok(b), held_a, held_b, cut_a);
    }
}

/// Two keys are equal only where card by card the places in the order of
/// hands are.
proof fn lemma_key_digits(a: Seq<Card>, a_cut: Card, b: Seq<Card>, b_cut: Card)
    ensures
        0 <= key_of(a, a_cut) < 380_204_032,
        key_of(a, a_cut) == key_of(b, b_cut) ==> a[0].order_key() == b[0].order_key()
            && a[1].order_key() == b[1].order_key() && a[2].order_key() == b[2].order_key()
            && a[3].order_key() == b[3].order_key() && a_cut.order_key() == b_cut.order_key(),
{
    lemma_order_key_bounds(a[0]);
    lemma_order_key_bounds(a[1]);
    lemma_order_key_bounds(a[2]);
    lemma_order_key_bounds(a[3]);
    lemma_order_key_bounds(a_cut);
    lemma_order_key_bounds(b[0]);
    lemma_order_key_bounds(b[1]);
    lemma_order_key_bounds(b[2]);
    lemma_order_key_bounds(b[3]);
    lemma_order_key_bounds(b_cut);
    lemma_digits(
        a[0].order_key(),
        a[1].order_key(),
        a[2].order_key(),
        a[3].order_key(),
        a_cut.order_key(),
        b[0].order_key(),
        b[1].order_key(),
        b[2].order_key(),
        b[3].order_key(),
        b_cut.order_key(),
    );
}

/// Every card has one of fifty-two places in the order of hands.
proof fn lemma_order_key_bounds(card: Card)
    ensures
        0 <= card.order_key() < 52,
{
    reveal(Card::order_key);
}

/// Two numbers of five digits to the base 52 are equal only where their
/// digits are.
proof fn lemma_digits(
    a0: int,
    a1: int,
    a2: int,
    a3: int,
    a4: int,
    b0: int,
    b1: int,
    b2: int,
    b3: int,
    b4: int,
)
    requires
        0 <= a0 < 52 && 0 <= a1 < 52 && 0 <= a2 < 52 && 0 <= a3 < 52 && 0 <= a4 < 52,
        0 <= b0 < 52 && 0 <= b1 < 52 && 0 <= b2 < 52 && 0 <= b3 < 52 && 0 <= b4 < 52,
    ensures
        0 <= (((a0 * 52 + a1) * 52 + a2) * 52 + a3) * 52 + a4 < 380_204_032,
        (((a0 * 52 + a1) * 52 + a2) * 52 + a3) * 52 + a4 == (((b0 * 52 + b1) * 52 + b2) * 52 + b3)
            * 52 + b4 ==> a0 == b0 && a1 == b1 && a2 == b2 && a3 == b3 && a4 == b4,
{
    let x3 = ((a0 * 52 + a1) * 52 + a2) * 52 + a3;
    let y3 = ((b0 * 52 + b1) * 52 + b2) * 52 + b3;
    let x2 = (a0 * 52 + a1) * 52 + a2;
    let y2 = (b0 * 52 + b1) * 52 + b2;
    let x1 = a0 * 52 + a1;
    let y1 = b0 * 52 + b1;
    if x3 * 52 + a4 == y3 * 52 + b4 {
        assert(x3 == y3);
        assert(x2 == y2);
        assert(x1 == y1);
    }
}

/// No two cards stand at one place in the order of hands.
pub proof fn lemma_order_key_injective(a: Card, b: Card)
    ensures
        0 <= a.order_key() < 52,
        a.order_key() == b.order_key() ==> a == b,
{
    reveal(Card::order_key);
    if a.order_key() == b.order_key() {
        assert(a.suit.index() == b.suit.index());
        assert(a.rank.index() == b.rank.index());
    }
}

/// The cards in the order that hands are kept in.
pub fn sort_cards(h: &Vec<Card>) -> (v: Vec<Card>)
    ensures
        v@ == canonical(h@),
{
    let mut v: Vec<Card> = Vec::new();
    let mut i: usize = 0;
    proof {
        assert(h@.take(0) =~= v@);
    }
    while i < h.len()
        invariant
            i <= h@.len(),
            sorted_by(v@, card_order()),
            v@.to_multiset() == h@.take(i as int).to_multiset(),
        decreases h@.len() - i,
    {
        let card = h[i];
        let key = card.sort_key();
        let mut p: usize = 0;
        while p < v.len() && v[p].sort_key() <= key
            invariant
                p <= v@.len(),
                forall|j: int| 0 <= j < p ==> (#[trigger] v@[j]).order_key() <= key,
                key == card.order_key(),
            decreases v@.len() - p,
        {
            p += 1;
        }
        proof {
            let before = v@;
            let after = before.insert(p as int, card);
            vstd::seq_lib::to_multiset_insert(before, p as int, card);
            assert(h@.take(i + 1) =~= h@.take(i as int).push(card));
            vstd::seq_lib::to_multiset_build(h@.take(i as int), card);
            assert forall|a: int, b: int| 0 <= a < b < after.len() implies card_order()(
                after[a],
                after[b],
            ) by {
                if a < p && b > p {
                    assert(card_order()(before[a], before[b - 1]));
                } else if a < p && b < p {
                    assert(card_order()(before[a], before[b]));
                } else if a > p {
                    assert(card_order()(before[a - 1], before[b - 1]));
                } else if a == p {
                    assert(card_order()(before[p as int], before[b - 1]));
                }
            }
        }
        v.insert(p, card);
        i += 1;
    }
    proof {
        assert(h@.take(i as int) =~= h@);
        lemma_card_order_total();
        h@.lemma_sort_by_ensures(card_order());
        lemma_sorted_unique(v@, canonical(h@), card_order());
    }
    v
}

/// Two sequences of the same cards agree on their length, on whether a card
/// occurs twice and on whether a given card occurs.
pub proof fn lemma_same_multiset(a: Seq<Card>, b: Seq<Card>, card: Card)
    requires
        a.to_multiset() == b.to_multiset(),
    ensures
        a.len() == b.len(),
        a.no_duplicates() <==> b.no_duplicates(),
        a.contains(card) <==> b.contains(card),
{
    vstd::seq_lib::to_multiset_contains(a, card);
    vstd::seq_lib::to_multiset_contains(b, card);
    vstd::seq_lib::to_multiset_len(a);
    vstd::seq_lib::to_multiset_len(b);
    if a.no_duplicates() {
        a.lemma_multiset_has_no_duplicates();
        b.lemma_multiset_has_no_duplicates_conv();
    }
    if b.no_duplicates() {
        b.lemma_multiset_has_no_duplicates();
        a.lemma_multiset_has_no_duplicates_conv();
    }
}

/// The cards in canonical order are the same cards, in order.
proof fn lemma_same_cards(a: Seq<Card>, b: Seq<Card>, card: Card)
    requires
        b == canonical(a),
    ensures
        a.no_duplicates() <==> b.no_duplicates(),
        a.contains(card) <==> b.contains(card),
        a.len() == b.len(),
        sorted_by(b, card_order()),
{
    lemma_card_order_total();
    a.lemma_sort_by_ensures(card_order());
    lemma_same_multiset(a, b, card);
}

/// The same cards have one canonical order, in whatever order they come.
pub proof fn lemma_canonical_of_permutation(held: Seq<Card>, permuted: Seq<Card>)
    requires
        permuted.to_multiset() == held.to_multiset(),
    ensures
        canonical(permuted) == canonical(held),
{
    lemma_card_order_total();
    held.lemma_sort_by_ensures(card_order());
    permuted.lemma_sort_by_ensures(card_order());
    lemma_sorted_unique(canonical(permuted), canonical(held), card_order());
}

/// The order in which the held cards are given does not matter: the same
/// held cards in another order make the same hand, or fail alike, and the
/// hand scores the same.
pub proof fn lemma_order_independent(
    first: Result<Hand, HandError>,
    second: Result<Hand, HandError>,
    held: Seq<Card>,
    permuted: Seq<Card>,
    cut: Card,
)
    requires
        permuted.to_multiset() == held.to_multiset(),
        Hand::made_of(first, held, cut),
        Hand::made_of(second, permuted, cut),
    ensures
        first == second,
        first is Ok ==> first->Ok_0.points() == second->Ok_0.points(),
        hand_points(canonical(permuted), cut) == hand_points(canonical(held), cut),
{
    lemma_canonical_of_permutation(held, permuted);
    lemma_same_multiset(held, permuted, cut);
    if first is Ok && second is Ok {
        assert(first->Ok_0.hand =~= second->Ok_0.hand);
    }
}

/// Once a string is no card's code, the strings after it are not read.
proof fn lemma_parse_cards_fails(codes: Seq<Seq<char>>, n: int)
    requires
        0 <= n <= codes.len(),
        parse_cards(codes.take(n)) is Err,
    ensures
        parse_cards(codes) == parse_cards(codes.take(n)),
    decreases codes.len() - n,
{
    if n < codes.len() {
        assert(codes.take(n + 1).drop_last() =~= codes.take(n));
        lemma_parse_cards_fails(codes, n + 1);
    } else {
        assert(codes.take(n) =~= codes);
    }
}

} // verus!
