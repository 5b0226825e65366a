//! The selections of `k` items out of a sequence, in the order in which they
//! are enumerated, and how many there are.

use crate::card::Card;
use itertools::Itertools;
use vstd::prelude::*;

verus! {

/// The number of ways to select `k` items out of `n`.
pub open spec fn binomial(n: nat, k: nat) -> nat
    decreases n,
{
    if k == 0 {
        1
    } else if n == 0 {
        0
    } else {
        binomial((n - 1) as nat, (k - 1) as nat) + binomial((n - 1) as nat, k)
    }
}

/// Every selection of `k` items of `s`, each in the order of `s`.
///
/// Selections are told apart by the positions they take, not by the values
/// found there. They come in the lexicographic order of their positions:
/// first those that take the first item, then those that do not.
pub open spec fn combinations<A>(s: Seq<A>, k: nat) -> Seq<Seq<A>>
    decreases s.len(),
{
    if k == 0 {
        seq![Seq::<A>::empty()]
    } else if s.len() == 0 {
        Seq::<Seq<A>>::empty()
    } else {
        combinations(s.drop_first(), (k - 1) as nat).map_values(|c: Seq<A>| seq![s[0]] + c)
            + combinations(s.drop_first(), k)
    }
}

/// There are `binomial(n, k)` selections of `k` items out of `n`.
pub proof fn lemma_combinations_len<A>(s: Seq<A>, k: nat)
    ensures
        combinations(s, k).len() == binomial(s.len(), k),
    decreases s.len(),
{
    if k != 0 && s.len() != 0 {
        lemma_combinations_len(s.drop_first(), (k - 1) as nat);
        lemma_combinations_len(s.drop_first(), k);
    }
}

/// Every selection of `k` items has `k` items.
pub proof fn lemma_combinations_item_len<A>(s: Seq<A>, k: nat, i: int)
    requires
        0 <= i < combinations(s, k).len(),
    ensures
        combinations(s, k)[i].len() == k,
    decreases s.len(),
{
    if k != 0 && s.len() != 0 {
        let with_first = combinations(s.drop_first(), (k - 1) as nat);
        if i < with_first.len() {
            lemma_combinations_item_len(s.drop_first(), (k - 1) as nat, i);
        } else {
            lemma_combinations_item_len(s.drop_first(), k, i - with_first.len());
        }
    }
}

/// No more items can be selected than there are.
pub proof fn lemma_binomial_zero(n: nat, k: nat)
    requires
        k > n,
    ensures
        binomial(n, k) == 0,
    decreases n,
{
    if n != 0 {
        lemma_binomial_zero((n - 1) as nat, (k - 1) as nat);
        lemma_binomial_zero((n - 1) as nat, k);
    }
}

/// The selections of one size are among all the subsets, of which there are
/// `2^n`.
pub proof fn lemma_binomial_bound(n: nat, k: nat)
    ensures
        binomial(n, k) <= vstd::arithmetic::power2::pow2(n),
    decreases n,
{
    vstd::arithmetic::power2::lemma2_to64();
    if k == 0 {
        vstd::arithmetic::power2::lemma_pow2_pos(n);
    } else if n != 0 {
        lemma_binomial_bound((n - 1) as nat, (k - 1) as nat);
        lemma_binomial_bound((n - 1) as nat, k);
        vstd::arithmetic::power2::lemma_pow2_unfold(n);
    }
}

/// Whether `c` can be had from `s` by leaving items out.
pub open spec fn is_selection<A>(c: Seq<A>, s: Seq<A>) -> bool
    decreases s.len(),
{
    if c.len() == 0 {
        true
    } else if s.len() == 0 {
        false
    } else {
        (c[0] == s[0] && is_selection(c.drop_first(), s.drop_first())) || is_selection(
            c,
            s.drop_first(),
        )
    }
}

/// Whether the items' keys go strictly up.
pub open spec fn strictly_increasing<A>(s: Seq<A>, key: spec_fn(A) -> int) -> bool {
    forall|i: int, j: int| 0 <= i < j < s.len() ==> key(s[i]) < key(s[j])
}

/// Every one of the selections of `k` items is had by leaving items out.
pub proof fn lemma_combination_is_selection<A>(s: Seq<A>, k: nat, i: int)
    requires
        0 <= i < combinations(s, k).len(),
    ensures
        is_selection(combinations(s, k)[i], s),
        combinations(s, k)[i].len() == k,
    decreases s.len(),
{
    lemma_combinations_item_len(s, k, i);
    if k != 0 && s.len() != 0 {
        let with_first = combinations(s.drop_first(), (k - 1) as nat);
        if i < with_first.len() {
            lemma_combination_is_selection(s.drop_first(), (k - 1) as nat, i);
            let c = combinations(s, k)[i];
            assert(c.drop_first() =~= with_first[i]);
        } else {
            lemma_combination_is_selection(s.drop_first(), k, i - with_first.len());
        }
    }
}

/// Whatever is had by leaving items out is one of the selections of its
/// size.
pub proof fn lemma_selection_is_combination<A>(c: Seq<A>, s: Seq<A>)
    requires
        is_selection(c, s),
    ensures
        combinations(s, c.len()).contains(c),
    decreases s.len(),
{
    let k = c.len();
    if k == 0 {
        assert(c =~= Seq::<A>::empty());
        assert(combinations(s, k)[0] == c);
    } else {
        let rest = s.drop_first();
        let with_first = combinations(rest, (k - 1) as nat);
        let mapped = with_first.map_values(|t: Seq<A>| seq![s[0]] + t);
        let without = combinations(rest, k);
        if c[0] == s[0] && is_selection(c.drop_first(), rest) {
            lemma_selection_is_combination(c.drop_first(), rest);
            let j = choose|j: int| 0 <= j < with_first.len() && with_first[j] == c.drop_first();
            assert(mapped[j] =~= c);
            assert((mapped + without)[j] == c);
        } else {
            lemma_selection_is_combination(c, rest);
            let j = choose|j: int| 0 <= j < without.len() && without[j] == c;
            assert((mapped + without)[mapped.len() + j] == c);
        }
    }
}

/// What is had by leaving items out holds only items of the sequence, and
/// in their order.
pub proof fn lemma_selection_keeps_order<A>(c: Seq<A>, s: Seq<A>, key: spec_fn(A) -> int)
    requires
        is_selection(c, s),
        strictly_increasing(s, key),
    ensures
        strictly_increasing(c, key),
        forall|i: int| 0 <= i < c.len() ==> s.contains(#[trigger] c[i]),
    decreases s.len(),
{
    if c.len() != 0 {
        let rest = s.drop_first();
        assert(strictly_increasing(rest, key)) by {
            assert forall|i: int, j: int| 0 <= i < j < rest.len() implies key(rest[i]) < key(
                rest[j],
            ) by {
                assert(key(s[i + 1]) < key(s[j + 1]));
            }
        }
        if c[0] == s[0] && is_selection(c.drop_first(), rest) {
            let tail = c.drop_first();
            lemma_selection_keeps_order(tail, rest, key);
            assert forall|i: int| 0 <= i < c.len() implies s.contains(#[trigger] c[i]) by {
                if i > 0 {
                    assert(rest.contains(tail[i - 1]));
                    let j = choose|j: int| 0 <= j < rest.len() && rest[j] == tail[i - 1];
                    assert(s[j + 1] == c[i]);
                } else {
                    assert(s[0] == c[0]);
                }
            }
            assert forall|i: int, j: int| 0 <= i < j < c.len() implies key(c[i]) < key(c[j]) by {
                if i > 0 {
                    assert(key(tail[i - 1]) < key(tail[j - 1]));
                } else {
                    assert(rest.contains(tail[j - 1]));
                    let m = choose|m: int| 0 <= m < rest.len() && rest[m] == tail[j - 1];
                    assert(key(s[0]) < key(s[m + 1]));
                }
            }
        } else {
            lemma_selection_keeps_order(c, rest, key);
            assert forall|i: int| 0 <= i < c.len() implies s.contains(#[trigger] c[i]) by {
                assert(rest.contains(c[i]));
                let j = choose|j: int| 0 <= j < rest.len() && rest[j] == c[i];
                assert(s[j + 1] == c[i]);
            }
        }
    }
}

/// Items of the sequence in their order are had by leaving the others out.
pub proof fn lemma_ordered_is_selection<A>(c: Seq<A>, s: Seq<A>, key: spec_fn(A) -> int)
    requires
        strictly_increasing(s, key),
        strictly_increasing(c, key),
        forall|i: int| 0 <= i < c.len() ==> s.contains(#[trigger] c[i]),
    ensures
        is_selection(c, s),
    decreases s.len(),
{
    if c.len() != 0 {
        assert(s.contains(c[0]));
        let rest = s.drop_first();
        assert(strictly_increasing(rest, key)) by {
            assert forall|i: int, j: int| 0 <= i < j < rest.len() implies key(rest[i]) < key(
                rest[j],
            ) by {
                assert(key(s[i + 1]) < key(s[j + 1]));
            }
        }
        if c[0] == s[0] {
            let tail = c.drop_first();
            assert(strictly_increasing(tail, key)) by {
                assert forall|i: int, j: int| 0 <= i < j < tail.len() implies key(tail[i]) < key(
                    tail[j],
                ) by {
                    assert(key(c[i + 1]) < key(c[j + 1]));
                }
            }
            assert forall|i: int| 0 <= i < tail.len() implies rest.contains(#[trigger] tail[i]) by {
                assert(s.contains(c[i + 1]));
                let m = choose|m: int| 0 <= m < s.len() && s[m] == c[i + 1];
                assert(key(c[0]) < key(c[i + 1]));
                assert(m != 0);
                assert(rest[m - 1] == tail[i]);
            }
            lemma_ordered_is_selection(tail, rest, key);
        } else {
            assert forall|i: int| 0 <= i < c.len() implies rest.contains(#[trigger] c[i]) by {
                assert(s.contains(c[i]));
                let m = choose|m: int| 0 <= m < s.len() && s[m] == c[i];
                let m0 = choose|m0: int| 0 <= m0 < s.len() && s[m0] == c[0];
                assert(m0 != 0);
                assert(key(s[0]) < key(s[m0]));
                if i > 0 {
                    assert(key(c[0]) < key(c[i]));
                }
                assert(m != 0);
                assert(rest[m - 1] == c[i]);
            }
            lemma_ordered_is_selection(c, rest, key);
        }
    }
}

/// What is had by leaving items out holds no item more often than the
/// sequence does.
pub proof fn lemma_selection_multiset<A>(c: Seq<A>, s: Seq<A>)
    requires
        is_selection(c, s),
    ensures
        c.to_multiset().subset_of(s.to_multiset()),
    decreases s.len(),
{
    broadcast use vstd::multiset::group_multiset_axioms;

    if c.len() == 0 {
        assert forall|v: A| c.to_multiset().count(v) <= s.to_multiset().count(v) by {
            vstd::seq_lib::to_multiset_contains(c, v);
        }
    } else {
        let rest = s.drop_first();
        assert(s =~= rest.insert(0, s[0]));
        vstd::seq_lib::to_multiset_insert(rest, 0, s[0]);
        if c[0] == s[0] && is_selection(c.drop_first(), rest) {
            let tail = c.drop_first();
            assert(c =~= tail.insert(0, c[0]));
            vstd::seq_lib::to_multiset_insert(tail, 0, c[0]);
            lemma_selection_multiset(tail, rest);
            assert forall|v: A| c.to_multiset().count(v) <= s.to_multiset().count(v) by {
                assert(tail.to_multiset().count(v) <= rest.to_multiset().count(v));
            }
        } else {
            lemma_selection_multiset(c, rest);
            assert forall|v: A| c.to_multiset().count(v) <= s.to_multiset().count(v) by {
                assert(c.to_multiset().count(v) <= rest.to_multiset().count(v));
            }
        }
    }
}

/// Out of items that all differ, no selection comes twice.
pub proof fn lemma_combinations_distinct<A>(s: Seq<A>, k: nat, key: spec_fn(A) -> int)
    requires
        strictly_increasing(s, key),
    ensures
        combinations(s, k).no_duplicates(),
    decreases s.len(),
{
    if k != 0 && s.len() != 0 {
        let rest = s.drop_first();
        let with_first = combinations(rest, (k - 1) as nat);
        let mapped = with_first.map_values(|t: Seq<A>| seq![s[0]] + t);
        let without = combinations(rest, k);
        let all = combinations(s, k);
        assert(strictly_increasing(rest, key)) by {
            assert forall|i: int, j: int| 0 <= i < j < rest.len() implies key(rest[i]) < key(
                rest[j],
            ) by {
                assert(key(s[i + 1]) < key(s[j + 1]));
            }
        }
        lemma_combinations_distinct(rest, (k - 1) as nat, key);
        lemma_combinations_distinct(rest, k, key);
        assert forall|i: int, j: int| 0 <= i < all.len() && 0 <= j < all.len() && i != j implies all[i]
            != all[j] by {
            if i < mapped.len() && j < mapped.len() {
                assert(all[i].drop_first() =~= with_first[i]);
                assert(all[j].drop_first() =~= with_first[j]);
            } else if i >= mapped.len() && j >= mapped.len() {
                assert(without[i - mapped.len()] != without[j - mapped.len()]);
            } else {
                let (a, b) = if i < mapped.len() {
                    (i, j)
                } else {
                    (j, i)
                };
                let c = without[b - mapped.len()];
                lemma_combination_is_selection(rest, k, b - mapped.len());
                lemma_selection_keeps_order(c, rest, key);
                assert(rest.contains(c[0]));
                let m = choose|m: int| 0 <= m < rest.len() && rest[m] == c[0];
                assert(key(s[0]) < key(s[m + 1]));
                assert(all[a][0] == s[0]);
            }
        }
    }
}

/// Four out of fifty-two can be selected in 270,725 ways.
pub proof fn lemma_four_of_fifty_two()
    ensures
        binomial(52, 4) == 270725,
{
    lemma_binomial_closed(52);
}

/// The closed forms of the number of ways to select up to four items.
pub proof fn lemma_binomial_closed(n: nat)
    ensures
        binomial(n, 0) == 1,
        binomial(n, 1) == n,
        2 * binomial(n, 2) == n * (n - 1),
        6 * binomial(n, 3) == n * (n - 1) * (n - 2),
        24 * binomial(n, 4) == n * (n - 1) * (n - 2) * (n - 3),
    decreases n,
{
    if n > 0 {
        lemma_binomial_closed((n - 1) as nat);
        let m = (n - 1) as int;
        assert(m * (m - 1) + 2 * m == (m + 1) * m) by (nonlinear_arith);
        assert(m * (m - 1) * (m - 2) + 3 * (m * (m - 1)) == (m + 1) * m * (m - 1))
            by (nonlinear_arith);
        assert(m * (m - 1) * (m - 2) * (m - 3) + 4 * (m * (m - 1) * (m - 2)) == (m + 1) * m * (m
            - 1) * (m - 2)) by (nonlinear_arith);
    }
}

/// Calls `Itertools::combinations` on a copy of each card and collects what
/// it yields.
///
/// Trusted: the iterator yields every selection of `k` positions once, in
/// lexicographic order of the positions, each as a `Vec` of the cards found
/// there; one empty selection for `k == 0`, none where `k` exceeds the
/// number of cards.
#[verifier::external_body]
pub(crate) fn card_combinations(cards: &Vec<Card>, k: usize) -> (r: Vec<Vec<Card>>)
    requires
        binomial(cards@.len(), k as nat) <= usize::MAX,
    ensures
        r@.len() == combinations(cards@, k as nat).len(),
        forall|i: int| 0 <= i < r@.len() ==> (#[trigger] r@[i])@ == combinations(cards@, k as nat)[i],
{
    cards.iter().copied().combinations(k).collect()
}

} // verus!
