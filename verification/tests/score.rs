use cribbage::card::Card;
use cribbage::hand::Hand;
use cribbage::score::{cards, count_fifteens, is_fifteen, is_pair, Fifteens};

/// Reads a card whose suit is written as a mark: the rank character comes
/// first, and the last character tells the suit.
fn marked(code: &str) -> Card {
    let rank = code.chars().next().unwrap();
    let suit = match code.chars().last().unwrap() {
        'ة' | '♡' | '♥' => 'H',
        'ب' | '♠' | '♤' => 'S',
        'ت' | '♢' | '♦' => 'D',
        'ث' | '♣' | '♧' => 'C',
        other => other,
    };
    Card::from_str(&format!("{}{}", rank, suit)).unwrap()
}

fn show(held: &[&str], cut: &str) -> Hand {
    Hand::from_cards(held.iter().map(|x| marked(x)).collect(), marked(cut)).unwrap()
}

fn from_chars(rank: char, suit: char) -> Card {
    marked(&format!("{}{}", rank, suit))
}

#[test]
fn test_score_fifteens_1() {
    let h = show(&vec!["2ظآة", "3ظآة", "5ظآة", "Tظآة"], "5ظآث");
    assert_eq!(h.score_fifteens(), 8)
}

#[test]
fn test_is_pair_1() {
    assert_eq!(is_pair(&from_chars('K', '♡'), &from_chars('K', '♠')), true)
}

#[test]
fn test_is_pair_2() {
    assert_eq!(is_pair(&from_chars('A', '♢'), &from_chars('A', '♣')), true)
}

#[test]
fn test_is_pair_3() {
    assert_eq!(is_pair(&from_chars('A', '♢'), &from_chars('A', '♣')), true)
}

#[test]
fn test_is_pair_4() {
    assert_eq!(is_pair(&from_chars('K', '♡'), &from_chars('A', '♣')), false)
}

#[test]
fn test_is_pair_5() {
    assert_eq!(is_pair(&from_chars('K', '♡'), &from_chars('A', '♣')), false)
}

fn card_vec(cs: Vec<(char, char)>) -> Vec<Card> {
    cs.iter().map(|(x, y)| from_chars(*x, *y)).collect::<Vec<_>>()
}

fn test_fifteen(cs: Vec<(char, char)>, b: bool) {
    assert_eq!(is_fifteen(&card_vec(cs)), b)
}

#[test]
fn test_is_fifteen_1() {
    test_fifteen(vec![('7', '♡'), ('8', '♡')], true)
}

#[test]
fn test_is_fifteen_2() {
    test_fifteen(vec![('5', '♡'), ('5', '♠'), ('5', '♣')], true)
}

#[test]
fn test_is_fifteen_3() {
    test_fifteen(vec![('2', '♡'), ('3', '♠'), ('T', '♣')], true)
}

#[test]
fn test_is_fifteen_4() {
    test_fifteen(vec![('A', '♡'), ('A', '♠'), ('3', '♠'), ('T', '♣')], true)
}

#[test]
fn test_is_fifteen_5() {
    test_fifteen(vec![('A', '♡'), ('3', '♠'), ('4', '♠'), ('4', '♡'), ('3', '♢')], true)
}

#[test]
fn test_is_fifteen_6() {
    test_fifteen(vec![('3', '♠'), ('4', '♡'), ('T', '♡')], false)
}

#[test]
fn test_is_fifteen_7() {
    println!("{}", from_chars('A', '♣').value());
    assert_eq!(
        is_fifteen(&vec![from_chars('A', '♡'), from_chars('K', '♣'), from_chars('4', '♢')]),
        true,
    )
}

#[test]
fn test_show_fifteens_cards() {
    let s = show(&vec!["2ظآة", "3ظآة", "4ظآة", "5ظآة"], "6ظآة");
    assert_eq!(
        Fifteens::cards(&s),
        vec!["2ظآة", "3ظآة", "4ظآة", "5ظآة", "6ظآة"].iter().map(|x| marked(x)).collect::<Vec<_>>(),
    )
}

fn codes(cs: &[&str]) -> Vec<Card> {
    cs.iter().map(|x| Card::from_str(x).unwrap()).collect()
}

#[test]
fn is_fifteen_on_edge_cases() {
    assert!(!is_fifteen(&[]));
    assert!(!is_fifteen(&codes(&["KH"])));
    assert!(!is_fifteen(&codes(&["KH", "6H"])));
    assert!(is_fifteen(&codes(&["KH", "5H"])));
    // a long list whose points pass fifteen early
    let many: Vec<Card> = (0..1000).map(|_| Card::from_str("KH").unwrap()).collect();
    assert!(!is_fifteen(&many));
    // fifteen aces
    let aces: Vec<Card> = (0..15).map(|_| Card::from_str("AH").unwrap()).collect();
    assert!(is_fifteen(&aces));
    assert!(!is_fifteen(&aces[..14]));
}

#[test]
fn count_fifteens_counts_picks_of_every_size() {
    assert_eq!(count_fifteens(&codes(&[])), 0);
    assert_eq!(count_fifteens(&codes(&["KH"])), 0);
    assert_eq!(count_fifteens(&codes(&["KH", "5H"])), 1);
    // four fives and a ten: four picks of two cards, four of three
    assert_eq!(count_fifteens(&codes(&["5H", "5S", "5D", "5C", "0H"])), 8);
    // one pick of five cards
    assert_eq!(count_fifteens(&codes(&["AC", "2H", "3H", "4D", "5C"])), 1);
    // one pick of four cards, two of two, one of three
    assert_eq!(count_fifteens(&codes(&["2H", "3H", "5H", "TH", "5C"])), 4);
    // six cards: 7+8 four times
    assert_eq!(count_fifteens(&codes(&["7H", "7S", "8H", "8S", "KH", "KS"])), 4);
    // six cards, a pick of six
    assert_eq!(count_fifteens(&codes(&["AH", "AS", "2H", "3H", "4H", "4S"])), 1);
}

#[test]
fn score_fifteens_is_two_per_fifteen() {
    let h = Hand::new(&["5H", "5S", "5D", "JC"], "5C").unwrap();
    assert_eq!(h.score_fifteens(), 16);
    let h = Hand::new(&["AC", "2H", "3H", "4D"], "5C").unwrap();
    assert_eq!(h.score_fifteens(), 2);
    let h = Hand::new(&["2H", "4S", "6D", "8C"], "0H").unwrap();
    assert_eq!(h.score_fifteens(), 0);
}

#[test]
fn cards_are_the_held_cards_then_the_cut() {
    let h = Hand::new(&["KC", "2D", "AH", "3S"], "9H").unwrap();
    assert_eq!(cards(&h), codes(&["AH", "3S", "2D", "KC", "9H"]));
}
