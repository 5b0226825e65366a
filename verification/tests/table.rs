use cribbage::card::Card;
use cribbage::deck::{add_hands, full, part, scored_hands};
use cribbage::hand::Hand;
use cribbage::table::ScoreTable;

fn codes(cs: &[&str]) -> Vec<Card> {
    cs.iter().map(|x| Card::from_str(x).unwrap()).collect()
}

#[test]
fn new_table_is_empty() {
    let table = ScoreTable::new();
    assert_eq!(table.len(), 0);
    assert_eq!(table.get(&Hand::new(&["2H", "3H", "4H", "5H"], "6H").unwrap()), None);
}

#[test]
fn insert_then_get() {
    let mut table = ScoreTable::new();
    let a = Hand::new(&["2H", "3H", "4H", "5H"], "6H").unwrap();
    let b = Hand::new(&["2H", "3H", "4H", "6H"], "5H").unwrap();
    table.insert(a, a.score());
    assert_eq!(table.len(), 1);
    assert_eq!(table.get(&a), Some(a.score()));
    assert_eq!(table.get(&b), None);
    table.insert(b, 7);
    assert_eq!(table.len(), 2);
    assert_eq!(table.get(&b), Some(7));
    // a hand that is there already gets the new score
    table.insert(b, 9);
    assert_eq!(table.len(), 2);
    assert_eq!(table.get(&b), Some(9));
    assert_eq!(table.get(&a), Some(a.score()));
}

#[test]
fn keys_tell_hands_apart() {
    let a = Hand::new(&["2H", "3H", "4H", "5H"], "6H").unwrap();
    let b = Hand::new(&["2H", "3H", "4H", "6H"], "5H").unwrap();
    let c = Hand::new(&["5H", "4H", "3H", "2H"], "6H").unwrap();
    assert_ne!(a.key(), b.key());
    assert_eq!(a.key(), c.key());
    // hearts come first, and the ace first among them
    let low = Hand::new(&["AH", "2H", "3H", "4H"], "5H").unwrap();
    assert_eq!(low.key(), ((((0 * 52 + 1) * 52 + 2) * 52 + 3) * 52) + 4);
    let high = Hand::new(&["KC", "QC", "JC", "0C"], "9C").unwrap();
    assert_eq!(high.key(), ((((48 * 52 + 49) * 52 + 50) * 52 + 51) * 52) + 47);
}

#[test]
fn held_cards_have_forty_eight_hands() {
    let mut table = ScoreTable::new();
    let held = codes(&["5H", "5S", "5D", "JC"]);
    add_hands(&mut table, &held);
    assert_eq!(table.len(), 48);
    for cut in part(&held) {
        let hand = Hand::from_cards(held.clone(), cut).unwrap();
        assert_eq!(table.get(&hand), Some(hand.score()));
    }
    assert_eq!(table.get(&Hand::new(&["5H", "5S", "5D", "JC"], "5C").unwrap()), Some(29));
    assert_eq!(table.get(&Hand::new(&["5H", "5S", "5D", "JC"], "KC").unwrap()), Some(21));
    // another order of the same held cards adds nothing
    add_hands(&mut table, &codes(&["JC", "5D", "5S", "5H"]));
    assert_eq!(table.len(), 48);
    // other held cards add their own
    add_hands(&mut table, &codes(&["5H", "5S", "5D", "JD"]));
    assert_eq!(table.len(), 96);
}

#[test]
fn held_cards_that_make_no_hand_add_nothing() {
    let mut table = ScoreTable::new();
    add_hands(&mut table, &codes(&["5H", "5S", "5D"]));
    assert_eq!(table.len(), 0);
    add_hands(&mut table, &codes(&["5H", "5S", "5D", "5H"]));
    assert_eq!(table.len(), 0);
    add_hands(&mut table, &codes(&[]));
    assert_eq!(table.len(), 0);
    add_hands(&mut table, &full());
    assert_eq!(table.len(), 0);
}

#[test]
fn scored_hands_stop_at_the_limit() {
    assert_eq!(scored_hands(0).len(), 0);
    assert_eq!(scored_hands(1).len(), 1);
    assert_eq!(scored_hands(100).len(), 100);
}

#[test]
fn scored_hands_go_through_the_deck_in_order() {
    let records = scored_hands(97);
    // the first held cards are the first four cards of the deck
    let aces = codes(&["AH", "AS", "AD", "AC"]);
    let cuts = part(&aces);
    for n in 0..48 {
        let (hand, score) = records[n];
        assert_eq!(hand, Hand::from_cards(aces.clone(), cuts[n]).unwrap());
        assert_eq!(score, hand.score());
    }
    assert_eq!(records[0].0.cut, Card::from_str("2H").unwrap());
    assert_eq!(records[0].1, 12);
    assert_eq!(records[47].0.cut, Card::from_str("KC").unwrap());
    // the second held cards leave out the last ace and take the next card
    let next = codes(&["AH", "AS", "AD", "2H"]);
    let cuts = part(&next);
    for n in 0..48 {
        let (hand, score) = records[48 + n];
        assert_eq!(hand, Hand::from_cards(next.clone(), cuts[n]).unwrap());
        assert_eq!(score, hand.score());
    }
    assert_eq!(records[48].0.cut, Card::from_str("AC").unwrap());
    assert_eq!(records[96].0.hand.to_vec(), codes(&["AH", "AS", "2S", "AD"]));
    assert_eq!(records[96].0.cut, Card::from_str("AC").unwrap());
}

#[test]
fn scored_hands_are_all_different() {
    let records = scored_hands(2000);
    let mut table = ScoreTable::new();
    for (hand, score) in &records {
        assert_eq!(table.get(hand), None);
        table.insert(*hand, *score);
        assert!(*score <= 29);
    }
    assert_eq!(table.len(), 2000);
}
