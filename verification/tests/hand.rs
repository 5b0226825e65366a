use cribbage::card::{Card, ParseError};
use cribbage::hand::{Hand, HandError};
use std::collections::hash_map::DefaultHasher;
use std::hash::{Hash, Hasher};

#[test]
fn construct_and_print_hand() {
    let h = Hand::new(&["2H", "3H", "4H", "5H"], "6H").unwrap();
    println!("{}", h.to_string())
}

#[test]
fn same_hand() {
    assert_eq!(
        Hand::new(&["2H", "3H", "4H", "5H"], "6H").unwrap(),
        Hand::new(&["2H", "3H", "4H", "5H"], "6H").unwrap(),
    );
}

#[test]
fn same_hand_diff_order() {
    assert_eq!(
        Hand::new(&["2H", "3H", "4H", "5H"], "6H").unwrap(),
        Hand::new(&["3H", "2H", "4H", "5H"], "6H").unwrap(),
    );
}

fn hash(hand: Hand) -> u64 {
    let mut hasher = DefaultHasher::new();
    hand.hash(&mut hasher);
    hasher.finish()
}

#[test]
fn check_hash_same_order() {
    assert_eq!(
        hash(Hand::new(&["2H", "3H", "4H", "5H"], "6H").unwrap()),
        hash(Hand::new(&["2H", "3H", "4H", "5H"], "6H").unwrap()),
    )
}

#[test]
fn check_hash_diff_order() {
    assert_eq!(
        hash(Hand::new(&["2H", "3H", "4H", "5H"], "6H").unwrap()),
        hash(Hand::new(&["3H", "2H", "4H", "5H"], "6H").unwrap()),
    )
}

#[test]
#[should_panic]
fn diff_hash_because_cut() {
    assert_eq!(
        hash(Hand::new(&["2H", "3H", "4H", "6H"], "5H").unwrap()),
        hash(Hand::new(&["3H", "2H", "4H", "5H"], "6H").unwrap()),
    )
}

fn test_score(h: &[&str], c: &str) -> usize {
    Hand::new(h, c).unwrap().score()
}

#[test]
fn five_flush_only() {
    assert_eq!(test_score(&["2H", "4H", "6H", "8H"], "0H"), 5);
}

#[test]
fn four_flush_only() {
    assert_eq!(test_score(&["2H", "4H", "6H", "8H"], "0C"), 4);
}

#[test]
fn score_flush_fifteens() {
    assert_eq!(test_score(&["2H", "3H", "5H", "TH"], "5C"), 14)
}

#[test]
fn score_nobs_fifteens() {
    assert_eq!(test_score(&["3H", "5C", "JH", "QH"], "7H"), 7)
}

#[test]
fn score_double_run() {
    assert_eq!(test_score(&["3H", "4D", "4C", "5C"], "7H"), 12)
}

#[test]
fn low_single_run() {
    assert_eq!(test_score(&["AH", "2C", "3D", "4D"], "6H"), 6)
}

#[test]
fn single_run_with_cut() {
    assert_eq!(test_score(&["AH", "2C", "3D", "6H"], "4H"), 6)
}

#[test]
fn high_run() {
    assert_eq!(test_score(&["0C", "JD", "QC", "KH"], "3C"), 4)
}

#[test]
fn triple_run() {
    assert_eq!(test_score(&["QC", "KS", "KD", "JD"], "KC"), 15)
}

#[test]
fn low_triple_run() {
    assert_eq!(test_score(&["AH", "AD", "AC", "2C"], "3C"), 15)
}

#[test]
fn double_double_run() {
    assert_eq!(test_score(&["AH", "AD", "3C", "2C"], "3D"), 16)
}

#[test]
fn double_double_run_with_nobs() {
    assert_eq!(test_score(&["JD", "QC", "KC", "KD"], "QD"), 17);
}

#[test]
fn triple_run_with_fifteen() {
    assert_eq!(test_score(&["3H", "4D", "4H", "5C"], "4C"), 17);
}

#[test]
fn fifteens_run_and_nobs() {
    assert_eq!(test_score(&["5H", "5C", "0C", "JH"], "QH"), 18);
}

#[test]
fn fifteens_run_and_nonobs() {
    assert_eq!(test_score(&["5H", "5C", "0C", "QH"], "JH"), 17);
}

#[test]
fn low_triple_run_2() {
    assert_eq!(test_score(&["AH", "2C", "3H", "3C"], "3D"), 15);
}

#[test]
fn fifteens_run_and_nonobs_2() {
    assert_eq!(test_score(&["3H", "4C", "4H", "5C"], "4D"), 17);
}

#[test]
fn five_card_fifteen() {
    assert_eq!(test_score(&["AC", "2H", "3H", "4D"], "5C"), 7);
}

fn card(code: &str) -> Card {
    Card::from_str(code).unwrap()
}

#[test]
fn highest_hand_scores_twenty_nine() {
    assert_eq!(test_score(&["5H", "5S", "5D", "JC"], "5C"), 29);
    assert_eq!(test_score(&["5H", "5S", "5C", "JD"], "5D"), 29);
}

#[test]
fn near_highest_hands() {
    assert_eq!(test_score(&["5H", "5S", "5D", "5C"], "JC"), 28);
    assert_eq!(test_score(&["5H", "5S", "5D", "5C"], "KC"), 28);
    assert_eq!(test_score(&["7H", "7S", "8D", "8C"], "9C"), 24);
    assert_eq!(test_score(&["4H", "4S", "5D", "6C"], "6S"), 24);
}

#[test]
fn worthless_hand_scores_nothing() {
    assert_eq!(test_score(&["2H", "4S", "6D", "8C"], "0H"), 0);
    assert_eq!(test_score(&["AH", "3S", "9D", "KC"], "7H"), 0);
}

#[test]
fn no_flush_without_four_held_of_one_suit() {
    // three hearts held and a heart cut: five cards, four hearts, no flush
    assert_eq!(test_score(&["2H", "4H", "6H", "8S"], "0H"), 0);
    assert_eq!(test_score(&["2H", "4H", "6H", "8S"], "0S"), 0);
    assert_eq!(test_score(&["2H", "4S", "6D", "8C"], "0C"), 0);
}

#[test]
fn nobs_is_one_point_and_needs_the_held_jack() {
    assert_eq!(test_score(&["2H", "4S", "6D", "JC"], "0C"), 1);
    assert_eq!(test_score(&["2H", "4S", "6D", "JC"], "0H"), 0);
    // the jack as the cut is no nobs
    assert_eq!(test_score(&["2H", "4S", "6D", "0C"], "JC"), 0);
    // a five-card flush with the jack held
    assert_eq!(test_score(&["2H", "4H", "8H", "JH"], "KH"), 6);
}

#[test]
fn run_that_ends_at_the_king_is_closed() {
    assert_eq!(test_score(&["JH", "QS", "KD", "2C"], "4S"), 3);
    assert_eq!(test_score(&["JH", "QS", "KD", "KC"], "2S"), 8);
    assert_eq!(test_score(&["9H", "0S", "JD", "QC"], "KH"), 5);
}

#[test]
fn ace_is_low_only() {
    assert_eq!(test_score(&["QH", "KS", "AD", "2C"], "7H"), 0);
    assert_eq!(test_score(&["QH", "KS", "AD", "9C"], "7H"), 0);
}

#[test]
fn two_cards_in_a_row_are_no_run() {
    assert_eq!(test_score(&["AH", "2S", "8D", "9C"], "QH"), 0);
    assert_eq!(test_score(&["9H", "0S", "QD", "KC"], "2H"), 0);
}

#[test]
fn pairs_score_two_per_pair() {
    assert_eq!(test_score(&["2H", "2S", "9D", "KC"], "7H"), 2);
    assert_eq!(test_score(&["2H", "2S", "2D", "KC"], "7H"), 6);
    assert_eq!(test_score(&["2H", "2S", "2D", "2C"], "KH"), 12);
    assert_eq!(test_score(&["2H", "2S", "KD", "KC"], "6H"), 4);
}

#[test]
fn score_does_not_depend_on_the_order_held() {
    let held = ["3H", "4D", "4H", "5C"];
    let expected = test_score(&held, "4C");
    let mut count = 0;
    for a in 0..4 {
        for b in 0..4 {
            for c in 0..4 {
                for d in 0..4 {
                    if a != b && a != c && a != d && b != c && b != d && c != d {
                        let h = Hand::new(&[held[a], held[b], held[c], held[d]], "4C").unwrap();
                        assert_eq!(h, Hand::new(&held, "4C").unwrap());
                        assert_eq!(h.score(), expected);
                        count += 1;
                    }
                }
            }
        }
    }
    assert_eq!(count, 24);
}

#[test]
fn held_cards_are_kept_by_suit_then_rank() {
    let h = Hand::new(&["KC", "2D", "AH", "3S"], "9H").unwrap();
    assert_eq!(h.hand, [card("AH"), card("3S"), card("2D"), card("KC")]);
    assert_eq!(h.cut, card("9H"));
    let h = Hand::new(&["KH", "2H", "AH", "3H"], "9H").unwrap();
    assert_eq!(h.hand, [card("AH"), card("2H"), card("3H"), card("KH")]);
    let mut sorted = vec![card("KC"), card("2D"), card("AH"), card("3S")];
    sorted.sort();
    assert_eq!(Hand::from_cards(vec![card("KC"), card("2D"), card("AH"), card("3S")], card("9H")).unwrap().hand.to_vec(), sorted);
}

#[test]
fn the_cut_is_part_of_what_a_hand_is() {
    assert_ne!(
        Hand::new(&["2H", "3H", "4H", "6H"], "5H").unwrap(),
        Hand::new(&["2H", "3H", "4H", "5H"], "6H").unwrap(),
    );
    assert_ne!(
        Hand::new(&["2H", "3H", "4H", "5H"], "6H").unwrap(),
        Hand::new(&["2H", "3H", "4H", "5H"], "7H").unwrap(),
    );
}

#[test]
fn hand_writes_held_cards_then_cut() {
    let h = Hand::new(&["5H", "4H", "TH", "2H"], "6C").unwrap();
    assert_eq!(h.to_string(), "[2H 4H 5H 0H] 6C");
}

#[test]
fn wrong_number_of_held_cards_is_invalid() {
    assert_eq!(Hand::new(&["2H", "3H", "4H"], "6H"), Err(HandError::InvalidHand));
    assert_eq!(Hand::new(&[], "6H"), Err(HandError::InvalidHand));
    assert_eq!(Hand::new(&["2H", "3H", "4H", "5H", "7H"], "6H"), Err(HandError::InvalidHand));
    assert_eq!(Hand::from_cards(vec![], card("6H")), Err(HandError::InvalidHand));
}

#[test]
fn a_card_held_twice_is_invalid() {
    assert_eq!(Hand::new(&["2H", "3H", "2H", "5H"], "6H"), Err(HandError::InvalidHand));
    assert_eq!(Hand::new(&["2H", "3H", "5H", "5H"], "6H"), Err(HandError::InvalidHand));
    assert_eq!(Hand::new(&["TH", "3H", "0H", "5H"], "6H"), Err(HandError::InvalidHand));
}

#[test]
fn a_cut_that_is_held_is_invalid() {
    assert_eq!(Hand::new(&["2H", "3H", "4H", "5H"], "2H"), Err(HandError::InvalidHand));
    assert_eq!(Hand::new(&["2H", "3H", "4H", "5H"], "5H"), Err(HandError::InvalidHand));
    // a cut with a lower-case suit is no card
    assert_eq!(
        Hand::new(&["2H", "3H", "4H", "5H"], "5h"),
        Err(HandError::Parse(ParseError::UnknownSuit))
    );
}

#[test]
fn first_string_that_is_no_card_is_the_error() {
    assert_eq!(
        Hand::new(&["2H", "3X", "4", "5H"], "6H"),
        Err(HandError::Parse(ParseError::UnknownSuit))
    );
    assert_eq!(
        Hand::new(&["2H", "3HH", "ZH", "5H"], "6H"),
        Err(HandError::Parse(ParseError::WrongLength))
    );
    assert_eq!(
        Hand::new(&["2H", "3H", "4H", "5H"], "ZH"),
        Err(HandError::Parse(ParseError::UnknownRank))
    );
    // a held string is read before the cut, and strings before the count
    assert_eq!(
        Hand::new(&["2H", "3H", "1H"], ""),
        Err(HandError::Parse(ParseError::UnknownRank))
    );
    assert_eq!(Hand::new(&["2H", "2H"], "6"), Err(HandError::Parse(ParseError::WrongLength)));
}
