//! The deck of fifty-two cards, what is left of it once cards are drawn, and
//! the table of every hand's score.

use crate::card::{Card, Rank, Suit};
use crate::hand::{canonical, card_order, lemma_card_order_total, lemma_same_multiset, Hand};
use crate::subsets::{
    card_combinations, combinations, is_selection, lemma_combination_is_selection,
    lemma_combinations_distinct, lemma_combinations_len, lemma_four_of_fifty_two,
    lemma_ordered_is_selection, lemma_selection_is_combination, lemma_selection_keeps_order,
    strictly_increasing,
};
use crate::table::ScoreTable;
use itertools::Itertools;
use vstd::math::min;
use vstd::prelude::*;
use vstd::relations::{sorted_by, total_ordering};
use vstd::seq_lib::lemma_sorted_unique;

verus! {

/// The card at position `i` of the full deck: the ranks in order, and the
/// four suits of each rank in order.
pub open spec fn card_at(i: int) -> Card {
    Card { rank: Rank::at(i / 4), suit: Suit::at(i % 4) }
}

/// The position of a card in the full deck.
pub open spec fn deck_index(card: Card) -> int {
    card.rank.index() * 4 + card.suit.index()
}

/// The full deck: every combination of a rank and a suit, once.
pub open spec fn full_deck() -> Seq<Card> {
    Seq::new(52, |i: int| card_at(i))
}

/// Whether a card is none of the drawn cards.
pub open spec fn not_in(drawn: Seq<Card>) -> spec_fn(Card) -> bool {
    |card: Card| !drawn.contains(card)
}

/// The deck without the drawn cards, in the order of the full deck.
pub open spec fn remaining(drawn: Seq<Card>) -> Seq<Card> {
    full_deck().filter(not_in(drawn))
}

/// Every card is in the full deck, at its position and nowhere else.
pub proof fn lemma_full_deck(card: Card)
    ensures
        0 <= deck_index(card) < 52,
        full_deck()[deck_index(card)] == card,
        full_deck().contains(card),
        forall|i: int| 0 <= i < 52 && full_deck()[i] == card ==> i == deck_index(card),
        full_deck().no_duplicates(),
{
    let i = deck_index(card);
    assert(card_at(i) == card);
    assert(full_deck()[i] == card);
    assert forall|a: int, b: int| 0 <= a < 52 && 0 <= b < 52 && a != b implies full_deck()[a]
        != full_deck()[b] by {
        assert(deck_index(card_at(a)) == a);
        assert(deck_index(card_at(b)) == b);
    }
    assert forall|j: int| 0 <= j < 52 && full_deck()[j] == card implies j == deck_index(card) by {
        assert(deck_index(card_at(j)) == j);
    }
}

/// The position of a card in the full deck, as the key that the deck is
/// ordered by.
pub open spec fn deck_key() -> spec_fn(Card) -> int {
    |card: Card| deck_index(card)
}

/// The drawn cards that stand before position `n` of the full deck.
pub open spec fn drawn_before(drawn: Seq<Card>, n: int) -> Set<Card> {
    drawn.to_set().filter(|card: Card| deck_index(card) < n)
}

/// The full deck is in the order of its positions.
pub proof fn lemma_deck_increasing()
    ensures
        strictly_increasing(full_deck(), deck_key()),
{
    assert forall|i: int, j: int| 0 <= i < j < full_deck().len() implies deck_key()(
        full_deck()[i],
    ) < deck_key()(full_deck()[j]) by {
        assert(deck_index(card_at(i)) == i);
        assert(deck_index(card_at(j)) == j);
    }
}

/// Of the first `n` cards of the deck, those that were not drawn are left,
/// each once and in the order of the deck.
proof fn lemma_remaining_prefix(drawn: Seq<Card>, n: int)
    requires
        0 <= n <= 52,
    ensures
        drawn_before(drawn, n).finite(),
        full_deck().take(n).filter(not_in(drawn)).len() + drawn_before(drawn, n).len() == n,
        strictly_increasing(full_deck().take(n).filter(not_in(drawn)), deck_key()),
        forall|card: Card|
            full_deck().take(n).filter(not_in(drawn)).contains(card) <==> !drawn.contains(card)
                && deck_index(card) < n,
    decreases n,
{
    broadcast use vstd::seq_lib::group_seq_properties;
    broadcast use vstd::set::group_set_axioms;

    let left = full_deck().take(n).filter(not_in(drawn));
    vstd::seq_lib::seq_to_set_is_finite(drawn);
    drawn.to_set().lemma_len_filter(|card: Card| deck_index(card) < n);
    if n == 0 {
        reveal(Seq::filter);
        assert(full_deck().take(0) =~= Seq::<Card>::empty());
        assert(left =~= Seq::<Card>::empty());
        assert(drawn_before(drawn, 0) =~= Set::<Card>::empty()) by {
            assert forall|card: Card| !drawn_before(drawn, 0).contains(card) by {
                lemma_full_deck(card);
            }
        }
    } else {
        lemma_remaining_prefix(drawn, n - 1);
        let card = full_deck()[n - 1];
        let seen = full_deck().take(n - 1);
        let before = seen.filter(not_in(drawn));
        assert(deck_index(card_at(n - 1)) == n - 1);
        assert(full_deck().take(n) =~= seen.push(card));
        seen.lemma_filter_push(card, not_in(drawn));
        assert forall|other: Card| deck_index(other) < n <==> deck_index(other) < n - 1 || other
            == card by {
            lemma_full_deck(other);
        }
        if drawn.contains(card) {
            assert(drawn_before(drawn, n) =~= drawn_before(drawn, n - 1).insert(card));
            assert(left == before);
        } else {
            assert(drawn_before(drawn, n) =~= drawn_before(drawn, n - 1));
            assert(left == before.push(card));
            assert forall|i: int, j: int| 0 <= i < j < left.len() implies deck_key()(left[i])
                < deck_key()(left[j]) by {
                if j < before.len() {
                    assert(deck_key()(before[i]) < deck_key()(before[j]));
                } else {
                    assert(before.contains(before[i]));
                }
            }
            assert forall|other: Card| left.contains(other) <==> !drawn.contains(other)
                && deck_index(other) < n by {
                if left.contains(other) {
                    let i = choose|i: int| 0 <= i < left.len() && left[i] == other;
                    if i < before.len() {
                        assert(before.contains(before[i]));
                    }
                }
                if !drawn.contains(other) && deck_index(other) < n {
                    if other == card {
                        assert(left[before.len() as int] == other);
                    } else {
                        assert(before.contains(other));
                        let i = choose|i: int| 0 <= i < before.len() && before[i] == other;
                        assert(left[i] == other);
                    }
                }
            }
        }
    }
}

/// What is left of the deck are the cards that were not drawn, each once and
/// in the order of the deck: 52 less the number of different cards drawn.
pub proof fn lemma_remaining(drawn: Seq<Card>)
    ensures
        remaining(drawn).len() == 52 - drawn.to_set().len(),
        strictly_increasing(remaining(drawn), deck_key()),
        remaining(drawn).no_duplicates(),
        forall|card: Card| remaining(drawn).contains(card) <==> !drawn.contains(card),
{
    lemma_remaining_prefix(drawn, 52);
    assert(full_deck().take(52) =~= full_deck());
    assert(drawn_before(drawn, 52) =~= drawn.to_set()) by {
        assert forall|card: Card| drawn.to_set().contains(card) implies drawn_before(
            drawn,
            52,
        ).contains(card) by {
            lemma_full_deck(card);
        }
    }
    assert forall|card: Card| remaining(drawn).contains(card) <==> !drawn.contains(card) by {
        lemma_full_deck(card);
    }
    let left = remaining(drawn);
    assert forall|i: int, j: int| 0 <= i < left.len() && 0 <= j < left.len() && i != j implies left[i]
        != left[j] by {
        if i < j {
            assert(deck_key()(left[i]) < deck_key()(left[j]));
        } else {
            assert(deck_key()(left[j]) < deck_key()(left[i]));
        }
    }
}

/// What is left of the deck depends on which cards were drawn, not on their
/// order nor on how often each was named.
pub proof fn lemma_remaining_of_same_cards(drawn: Seq<Card>, other: Seq<Card>)
    requires
        drawn.to_set() == other.to_set(),
    ensures
        remaining(drawn) == remaining(other),
{
    lemma_same_filter(drawn, other, 52);
    assert(full_deck().take(52) =~= full_deck());
}

/// The first `n` cards of the deck are filtered alike by the same drawn
/// cards.
proof fn lemma_same_filter(drawn: Seq<Card>, other: Seq<Card>, n: int)
    requires
        drawn.to_set() == other.to_set(),
        0 <= n <= 52,
    ensures
        full_deck().take(n).filter(not_in(drawn)) == full_deck().take(n).filter(not_in(other)),
    decreases n,
{
    if n == 0 {
        reveal(Seq::filter);
        assert(full_deck().take(0) =~= Seq::<Card>::empty());
    } else {
        lemma_same_filter(drawn, other, n - 1);
        let card = full_deck()[n - 1];
        let seen = full_deck().take(n - 1);
        assert(full_deck().take(n) =~= seen.push(card));
        seen.lemma_filter_push(card, not_in(drawn));
        seen.lemma_filter_push(card, not_in(other));
        assert(drawn.contains(card) <==> drawn.to_set().contains(card));
        assert(other.contains(card) <==> other.to_set().contains(card));
    }
}

/// Drawing four different cards leaves forty-eight.
pub proof fn lemma_remaining_of_four(drawn: Seq<Card>)
    requires
        drawn.len() == 4,
        drawn.no_duplicates(),
    ensures
        remaining(drawn).len() == 48,
{
    lemma_remaining(drawn);
    drawn.unique_seq_to_set();
}

/// Calls `Itertools::cartesian_product` on the ranks and the suits and
/// collects what it yields.
///
/// Trusted: the iterator pairs each rank in turn with every suit in turn, so
/// the pair at position `n` holds the rank at `n / suits.len()` and the suit
/// at `n % suits.len()`.
#[verifier::external_body]
fn rank_suit_product(ranks: &Vec<Rank>, suits: &Vec<Suit>) -> (pairs: Vec<(Rank, Suit)>)
    requires
        ranks@.len() * suits@.len() <= usize::MAX,
    ensures
        pairs@.len() == ranks@.len() * suits@.len(),
        forall|n: int|
            0 <= n < pairs@.len() ==> #[trigger] pairs@[n] == (
                ranks@[n / (suits@.len() as int)],
                suits@[n % (suits@.len() as int)],
            ),
{
    ranks.iter().copied().cartesian_product(suits.iter().copied()).collect()
}

/// The full deck of cards.
///
/// This pairs every rank with every suit and therefore makes all 52 cards.
#[must_use]
pub fn full() -> (deck: Vec<Card>)
    ensures
        deck@ == full_deck(),
        deck@.len() == 52,
        deck@.no_duplicates(),
{
    proof {
        lemma_full_deck(card_at(0));
    }
    let ranks = Rank::all();
    let suits = Suit::all();
    let pairs = rank_suit_product(&ranks, &suits);
    let mut deck: Vec<Card> = Vec::new();
    for i in 0..pairs.len()
        invariant
            pairs@.len() == 52,
            deck@.len() == i,
            forall|n: int| 0 <= n < 52 ==> (#[trigger] pairs@[n]) == (Rank::at(n / 4), Suit::at(n % 4)),
            forall|n: int| 0 <= n < i ==> #[trigger] deck@[n] == card_at(n),
    {
        let (r, s) = pairs[i];
        deck.push(Card { rank: r, suit: s });
    }
    assert(deck@ =~= full_deck());
    deck
}

/// Whether the card is among the cards.
pub fn contains_card(cards: &[Card], card: Card) -> (b: bool)
    ensures
        b == cards@.contains(card),
{
    let mut i: usize = 0;
    while i < cards.len()
        invariant
            i <= cards@.len(),
            forall|j: int| 0 <= j < i ==> cards@[j] != card,
        decreases cards@.len() - i,
    {
        if cards[i] == card {
            return true;
        }
        i += 1;
    }
    false
}

/// A view of the deck with the input cards removed (as if they were already
/// drawn).
///
/// This is helpful for when getting all of the possible cut cards given a
/// set of cards that has already been drawn.
#[must_use]
pub fn part(already_drawn: &[Card]) -> (rest: Vec<Card>)
    ensures
        rest@ == remaining(already_drawn@),
        rest@.len() == 52 - already_drawn@.to_set().len(),
        rest@.no_duplicates(),
        forall|card: Card| rest@.contains(card) <==> !already_drawn@.contains(card),
{
    proof {
        lemma_remaining(already_drawn@);
    }
    let deck = full();
    let mut rest: Vec<Card> = Vec::new();
    let mut i: usize = 0;
    proof {
        reveal(Seq::filter);
        assert(full_deck().take(0) =~= Seq::<Card>::empty());
    }
    while i < deck.len()
        invariant
            i <= 52,
            deck@ == full_deck(),
            rest@ == full_deck().take(i as int).filter(not_in(already_drawn@)),
        decreases 52 - i,
    {
        proof {
            let seen = full_deck().take(i as int);
            assert(full_deck().take(i + 1) =~= seen.push(deck@[i as int]));
            seen.lemma_filter_push(deck@[i as int], not_in(already_drawn@));
        }
        if !contains_card(already_drawn, deck[i]) {
            rest.push(deck[i]);
        }
        i += 1;
    }
    proof {
        assert(full_deck().take(52) =~= full_deck());
    }
    rest
}

/// The order of the full deck, as a relation.
pub open spec fn deck_order() -> spec_fn(Card, Card) -> bool {
    |a: Card, b: Card| deck_index(a) <= deck_index(b)
}

/// Whether the hand is one of the held cards: it keeps them in canonical
/// order, and its cut is none of them.
pub open spec fn is_hand_of(hand: Hand, held: Seq<Card>) -> bool {
    &&& held.len() == 4
    &&& held.no_duplicates()
    &&& hand.hand@ == canonical(held)
    &&& !held.contains(hand.cut)
}

/// Whether the hand is one of the first `n` of the sets of held cards.
pub open spec fn is_hand_of_any(hand: Hand, sets: Seq<Seq<Card>>, n: int) -> bool {
    exists|a: int| 0 <= a < n && #[trigger] is_hand_of(hand, sets[a])
}

/// The sets of four held cards that the deck gives, in the order in which
/// they are gone through.
pub open spec fn held_sets() -> Seq<Seq<Card>> {
    combinations(full_deck(), 4)
}

/// The order of the full deck puts any two cards in order, and only a card
/// with itself both ways.
pub proof fn lemma_deck_order_total()
    ensures
        total_ordering(deck_order()),
{
    assert forall|a: Card, b: Card| deck_index(a) == deck_index(b) implies a == b by {
        lemma_full_deck(a);
        lemma_full_deck(b);
    }
}

/// A hand of held cards is a valid hand in canonical order.
pub proof fn lemma_hand_of_is_valid(hand: Hand, held: Seq<Card>)
    requires
        is_hand_of(hand, held),
    ensures
        hand.valid(),
        hand.is_canonical(),
{
    lemma_card_order_total();
    held.lemma_sort_by_ensures(card_order());
    lemma_same_multiset(held, hand.hand@, hand.cut);
}

/// Every set of held cards that the deck gives holds four different cards
/// in the order of the deck.
pub proof fn lemma_held_set(a: int)
    requires
        0 <= a < held_sets().len(),
    ensures
        held_sets()[a].len() == 4,
        held_sets()[a].no_duplicates(),
        strictly_increasing(held_sets()[a], deck_key()),
        is_selection(held_sets()[a], full_deck()),
{
    lemma_combination_is_selection(full_deck(), 4, a);
    lemma_deck_increasing();
    let held = held_sets()[a];
    lemma_selection_keeps_order(held, full_deck(), deck_key());
    assert forall|i: int, j: int| 0 <= i < held.len() && 0 <= j < held.len() && i != j implies held[i]
        != held[j] by {
        if i < j {
            assert(deck_key()(held[i]) < deck_key()(held[j]));
        } else {
            assert(deck_key()(held[j]) < deck_key()(held[i]));
        }
    }
}

/// No hand is a hand of two of the sets of held cards that the deck gives.
pub proof fn lemma_held_sets_apart(hand: Hand, a: int, b: int)
    requires
        0 <= a < held_sets().len(),
        0 <= b < held_sets().len(),
        is_hand_of(hand, held_sets()[a]),
        is_hand_of(hand, held_sets()[b]),
    ensures
        a == b,
{
    let x = held_sets()[a];
    let y = held_sets()[b];
    lemma_held_set(a);
    lemma_held_set(b);
    lemma_card_order_total();
    lemma_deck_order_total();
    x.lemma_sort_by_ensures(card_order());
    y.lemma_sort_by_ensures(card_order());
    assert(sorted_by(x, deck_order())) by {
        assert forall|i: int, j: int| 0 <= i < j < x.len() implies deck_order()(x[i], x[j]) by {
            assert(deck_key()(x[i]) < deck_key()(x[j]));
        }
    }
    assert(sorted_by(y, deck_order())) by {
        assert forall|i: int, j: int| 0 <= i < j < y.len() implies deck_order()(y[i], y[j]) by {
            assert(deck_key()(y[i]) < deck_key()(y[j]));
        }
    }
    lemma_sorted_unique(x, y, deck_order());
    lemma_deck_increasing();
    lemma_combinations_distinct(full_deck(), 4, deck_key());
}

/// Every valid hand in canonical order is a hand of one of the sets of held
/// cards that the deck gives.
pub proof fn lemma_every_hand_is_held(hand: Hand)
    requires
        hand.valid(),
        hand.is_canonical(),
    ensures
        is_hand_of_any(hand, held_sets(), held_sets().len() as int),
{
    let held = hand.hand@.sort_by(deck_order());
    lemma_deck_order_total();
    lemma_card_order_total();
    hand.hand@.lemma_sort_by_ensures(deck_order());
    lemma_same_multiset(hand.hand@, held, hand.cut);
    assert(strictly_increasing(held, deck_key())) by {
        assert forall|i: int, j: int| 0 <= i < j < held.len() implies deck_key()(held[i])
            < deck_key()(held[j]) by {
            assert(deck_order()(held[i], held[j]));
            lemma_full_deck(held[i]);
            lemma_full_deck(held[j]);
        }
    }
    assert forall|i: int| 0 <= i < held.len() implies full_deck().contains(#[trigger] held[i]) by {
        lemma_full_deck(held[i]);
    }
    lemma_deck_increasing();
    lemma_ordered_is_selection(held, full_deck(), deck_key());
    lemma_selection_is_combination(held, full_deck());
    let a = choose|a: int| 0 <= a < held_sets().len() && held_sets()[a] == held;
    held.lemma_sort_by_ensures(card_order());
    lemma_sorted_unique(hand.hand@, canonical(held), card_order());
    assert(is_hand_of(hand, held_sets()[a]));
}

/// Puts every hand of the held cards into the table with its score: one
/// hand for each card of the deck that is none of the held cards. Held
/// cards that are not four different cards have no hand.
pub fn add_hands(table: &mut ScoreTable, held: &Vec<Card>)
    requires
        old(table).wf(),
    ensures
        final(table).wf(),
        forall|hand: Hand|
            final(table).contains(hand) <==> old(table).contains(hand) || is_hand_of(hand, held@),
        forall|hand: Hand| is_hand_of(hand, held@) ==> final(table).score_of(hand) == hand.points(),
        forall|hand: Hand|
            !is_hand_of(hand, held@) ==> final(table).score_of(hand) == old(table).score_of(hand),
        held@.len() == 4 && held@.no_duplicates() && (forall|hand: Hand|
            is_hand_of(hand, held@) ==> !old(table).contains(hand)) ==> final(table).count() == old(
            table,
        ).count() + 48,
        !(held@.len() == 4 && held@.no_duplicates()) ==> final(table).count() == old(table).count(),
{
    let cuts = part(held.as_slice());
    let ghost before = *table;
    proof {
        lemma_remaining(held@);
        if held@.len() == 4 && held@.no_duplicates() {
            lemma_remaining_of_four(held@);
        }
        assert(cuts@.take(0) =~= Seq::<Card>::empty());
    }
    let mut j: usize = 0;
    while j < cuts.len()
        invariant
            j <= cuts@.len(),
            cuts@ == remaining(held@),
            cuts@.no_duplicates(),
            forall|card: Card| cuts@.contains(card) <==> !held@.contains(card),
            table.wf(),
            forall|hand: Hand| #[trigger]
                table.contains(hand) <==> before.contains(hand) || (is_hand_of(hand, held@)
                    && cuts@.take(j as int).contains(hand.cut)),
            forall|hand: Hand|
                is_hand_of(hand, held@) && cuts@.take(j as int).contains(hand.cut) ==> #[trigger]
                table.score_of(hand) == hand.points(),
            forall|hand: Hand|
                !(is_hand_of(hand, held@) && cuts@.take(j as int).contains(hand.cut)) ==> #[trigger]
                table.score_of(hand) == before.score_of(hand),
            held@.len() == 4 && held@.no_duplicates() && (forall|hand: Hand| #[trigger]
                is_hand_of(hand, held@) ==> !before.contains(hand)) ==> table.count()
                == before.count() + j,
            !(held@.len() == 4 && held@.no_duplicates()) ==> table.count() == before.count(),
        decreases cuts@.len() - j,
    {
        let cut = cuts[j];
        let ghost seen = cuts@.take(j as int);
        let ghost prev = *table;
        proof {
            assert(cuts@.take(j + 1) =~= seen.push(cut));
            assert(cuts@.contains(cut));
            assert(!seen.contains(cut)) by {
                if seen.contains(cut) {
                    let m = choose|m: int| 0 <= m < seen.len() && seen[m] == cut;
                    assert(cuts@[m] == cuts@[j as int]);
                }
            }
        }
        match Hand::from_cards(copy_cards(held), cut) {
            Ok(hand) => {
                let score = hand.score();
                table.insert(hand, score);
                proof {
                    assert(is_hand_of(hand, held@));
                    assert forall|other: Hand| #[trigger]
                        table.contains(other) <==> before.contains(other) || (is_hand_of(
                            other,
                            held@,
                        ) && seen.push(cut).contains(other.cut)) by {
                        lemma_push_contains(seen, cut, other.cut);
                        assert(prev.contains(other) <==> before.contains(other) || (is_hand_of(
                            other,
                            held@,
                        ) && seen.contains(other.cut)));
                        if is_hand_of(other, held@) && other.cut == cut {
                            assert(other.hand =~= hand.hand);
                        }
                    }
                    assert forall|other: Hand|
                        is_hand_of(other, held@) && seen.push(cut).contains(
                            other.cut,
                        ) implies #[trigger] table.score_of(other) == other.points() by {
                        lemma_push_contains(seen, cut, other.cut);
                        if other.cut == cut {
                            assert(other.hand =~= hand.hand);
                        } else {
                            assert(prev.score_of(other) == other.points());
                        }
                    }
                    assert forall|other: Hand|
                        !(is_hand_of(other, held@) && seen.push(cut).contains(
                            other.cut,
                        )) implies #[trigger] table.score_of(other) == before.score_of(other) by {
                        lemma_push_contains(seen, cut, other.cut);
                        assert(prev.score_of(other) == before.score_of(other));
                    }
                    if forall|other: Hand| #[trigger]
                        is_hand_of(other, held@) ==> !before.contains(other) {
                        assert(prev.contains(hand) <==> before.contains(hand) || (is_hand_of(
                            hand,
                            held@,
                        ) && seen.contains(hand.cut)));
                        assert(!prev.contains(hand));
                    }
                }
            },
            Err(_) => {
                proof {
                    assert forall|other: Hand| !is_hand_of(other, held@) by {}
                    assert forall|other: Hand| #[trigger]
                        table.contains(other) <==> before.contains(other) || (is_hand_of(
                            other,
                            held@,
                        ) && seen.push(cut).contains(other.cut)) by {
                        assert(prev.contains(other) <==> before.contains(other) || (is_hand_of(
                            other,
                            held@,
                        ) && seen.contains(other.cut)));
                    }
                    assert forall|other: Hand|
                        !(is_hand_of(other, held@) && seen.push(cut).contains(
                            other.cut,
                        )) implies #[trigger] table.score_of(other) == before.score_of(other) by {
                        assert(prev.score_of(other) == before.score_of(other));
                    }
                }
            },
        }
        j += 1;
    }
    proof {
        assert(cuts@.take(j as int) =~= cuts@);
    }
}

/// What a sequence with one more item holds.
proof fn lemma_push_contains(s: Seq<Card>, card: Card, other: Card)
    ensures
        s.push(card).contains(other) <==> s.contains(other) || other == card,
{
    if s.contains(other) {
        let m = choose|m: int| 0 <= m < s.len() && s[m] == other;
        assert(s.push(card)[m] == other);
    }
    if other == card {
        assert(s.push(card)[s.len() as int] == other);
    }
}

/// A copy of the cards.
fn copy_cards(cards: &Vec<Card>) -> (copy: Vec<Card>)
    ensures
        copy@ == cards@,
{
    let mut copy: Vec<Card> = Vec::new();
    let mut i: usize = 0;
    while i < cards.len()
        invariant
            i <= cards@.len(),
            copy@ == cards@.take(i as int),
        decreases cards@.len() - i,
    {
        copy.push(cards[i]);
        proof {
            assert(cards@.take(i + 1) =~= cards@.take(i as int).push(cards@[i as int]));
        }
        i += 1;
    }
    proof {
        assert(cards@.take(i as int) =~= cards@);
    }
    copy
}

/// Whether the hand and the score are what stands at position `n` when all
/// hands are gone through: the sets of held cards in their order, and for
/// each set the cards that are left of the deck, in the deck's order, as
/// the cut.
pub open spec fn is_record(record: (Hand, usize), n: int) -> bool {
    &&& record.0.hand@ == canonical(held_sets()[n / 48])
    &&& record.0.cut == remaining(held_sets()[n / 48])[n % 48]
    &&& record.1 == record.0.points()
}

/// The first hands of the deck with their scores, `limit` of them at most,
/// in the order in which all hands are gone through.
pub fn scored_hands(limit: usize) -> (records: Vec<(Hand, usize)>)
    ensures
        records@.len() == min(limit as int, 12_994_800),
        forall|n: int| 0 <= n < records@.len() ==> is_record(#[trigger] records@[n], n),
        forall|n: int|
            0 <= n < records@.len() ==> (#[trigger] records@[n]).0.valid()
                && records@[n].0.is_canonical(),
{
    let mut records: Vec<(Hand, usize)> = Vec::new();
    let deck = full();
    proof {
        lemma_four_of_fifty_two();
        lemma_combinations_len(full_deck(), 4);
    }
    let sets = card_combinations(&deck, 4);
    let mut i: usize = 0;
    while i < sets.len() && records.len() < limit
        invariant
            i <= sets@.len(),
            sets@.len() == 270725,
            held_sets().len() == 270725,
            forall|a: int| 0 <= a < sets@.len() ==> (#[trigger] sets@[a])@ == held_sets()[a],
            records@.len() == if limit <= 48 * i {
                limit as int
            } else {
                48 * i
            },
            forall|n: int| 0 <= n < records@.len() ==> is_record(#[trigger] records@[n], n),
            forall|n: int|
                0 <= n < records@.len() ==> (#[trigger] records@[n]).0.valid()
                    && records@[n].0.is_canonical(),
        decreases sets@.len() - i,
    {
        let cuts = part(sets[i].as_slice());
        let ghost held = held_sets()[i as int];
        proof {
            lemma_held_set(i as int);
            lemma_remaining(held);
            lemma_remaining_of_four(held);
        }
        let mut j: usize = 0;
        while j < cuts.len() && records.len() < limit
            invariant
                i < sets@.len(),
                sets@.len() == 270725,
                j <= 48,
                cuts@.len() == 48,
                cuts@ == remaining(held),
                held == held_sets()[i as int],
                sets@[i as int]@ == held,
                held.len() == 4,
                held.no_duplicates(),
                forall|card: Card| cuts@.contains(card) <==> !held.contains(card),
                records@.len() == if limit <= 48 * i + j {
                    limit as int
                } else {
                    48 * i + j
                },
                forall|n: int| 0 <= n < records@.len() ==> is_record(#[trigger] records@[n], n),
                forall|n: int|
                    0 <= n < records@.len() ==> (#[trigger] records@[n]).0.valid()
                        && records@[n].0.is_canonical(),
            decreases 48 - j,
        {
            let cut = cuts[j];
            proof {
                assert(cuts@.contains(cut));
            }
            match Hand::from_cards(copy_cards(&sets[i]), cut) {
                Ok(hand) => {
                    let score = hand.score();
                    proof {
                        let n = records@.len() as int;
                        assert(n == 48 * i + j);
                        assert(n / 48 == i && n % 48 == j);
                        assert(is_hand_of(hand, held));
                        lemma_hand_of_is_valid(hand, held);
                    }
                    records.push((hand, score));
                },
                Err(_) => {
                    proof {
                        assert(false);
                    }
                },
            }
            j += 1;
        }
        i += 1;
    }
    records
}

/// The full set of all unique 5-card hands.
///
/// This look-up table is helpful for improving the speed of more
/// complicated simulations comparing different strategies. It holds the
/// 12_994_800 different possible unique scorable hands: every set of four
/// held cards with each of the forty-eight cards that may be the cut.
#[must_use]
pub fn unique_scores() -> (lut: ScoreTable)
    ensures
        lut.wf(),
        lut.count() == 12_994_800,
        forall|hand: Hand| lut.contains(hand) <==> hand.valid() && hand.is_canonical(),
        forall|hand: Hand| lut.contains(hand) ==> lut.score_of(hand) == hand.points(),
{
    let mut lut = ScoreTable::new();
    let deck = full();
    proof {
        lemma_four_of_fifty_two();
        lemma_combinations_len(full_deck(), 4);
    }
    let sets = card_combinations(&deck, 4);
    let mut i: usize = 0;
    while i < sets.len()
        invariant
            i <= sets@.len(),
            sets@.len() == 270725,
            held_sets().len() == 270725,
            forall|a: int| 0 <= a < sets@.len() ==> (#[trigger] sets@[a])@ == held_sets()[a],
            lut.wf(),
            lut.count() == 48 * i,
            forall|hand: Hand| lut.contains(hand) <==> is_hand_of_any(hand, held_sets(), i as int),
            forall|hand: Hand| lut.contains(hand) ==> lut.score_of(hand) == hand.points(),
        decreases sets@.len() - i,
    {
        let ghost held = held_sets()[i as int];
        let ghost before = lut;
        proof {
            lemma_held_set(i as int);
            assert forall|hand: Hand| is_hand_of(hand, held) implies !lut.contains(hand) by {
                if lut.contains(hand) {
                    let a = choose|a: int| 0 <= a < i && #[trigger] is_hand_of(hand, held_sets()[a]);
                    lemma_held_sets_apart(hand, a, i as int);
                }
            }
        }
        add_hands(&mut lut, &sets[i]);
        proof {
            assert forall|hand: Hand|
                lut.contains(hand) <==> is_hand_of_any(hand, held_sets(), i + 1) by {
                if is_hand_of_any(hand, held_sets(), i + 1) {
                    let a = choose|a: int|
                        0 <= a < i + 1 && #[trigger] is_hand_of(hand, held_sets()[a]);
                    if a < i {
                        assert(is_hand_of_any(hand, held_sets(), i as int));
                    }
                }
                if before.contains(hand) {
                    let a = choose|a: int| 0 <= a < i && #[trigger] is_hand_of(hand, held_sets()[a]);
                    assert(is_hand_of(hand, held_sets()[a]));
                }
                if is_hand_of(hand, held) {
                    assert(is_hand_of(hand, held_sets()[i as int]));
                }
            }
        }
        i += 1;
    }
    proof {
        assert forall|hand: Hand| lut.contains(hand) <==> hand.valid() && hand.is_canonical() by {
            if lut.contains(hand) {
                let a = choose|a: int|
                    0 <= a < held_sets().len() && #[trigger] is_hand_of(hand, held_sets()[a]);
                lemma_hand_of_is_valid(hand, held_sets()[a]);
            }
            if hand.valid() && hand.is_canonical() {
                lemma_every_hand_is_held(hand);
            }
        }
    }
    lut
}

} // verus!
