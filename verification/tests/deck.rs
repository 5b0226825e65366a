use cribbage::card::{Card, Rank, Suit};
use cribbage::deck::{contains_card, full, part};

#[test]
fn deck_corect_len() {
    assert_eq!(full().len(), 52);
}

#[test]
fn one_drawn_from_deck() {
    let card_drawn = Card::from_str("5H").unwrap();
    let one_drawn = part(&[card_drawn]);
    assert_eq!(one_drawn.len(), 51);
    assert!(!one_drawn.contains(&card_drawn));
}

#[test]
fn deck_is_rank_major() {
    let deck = full();
    assert_eq!(deck[0], Card { rank: Rank::Ace, suit: Suit::Heart });
    assert_eq!(deck[1], Card { rank: Rank::Ace, suit: Suit::Spade });
    assert_eq!(deck[2], Card { rank: Rank::Ace, suit: Suit::Diamond });
    assert_eq!(deck[3], Card { rank: Rank::Ace, suit: Suit::Club });
    assert_eq!(deck[4], Card { rank: Rank::Two, suit: Suit::Heart });
    assert_eq!(deck[51], Card { rank: Rank::King, suit: Suit::Club });
    let ranks = Rank::all();
    let suits = Suit::all();
    for (i, card) in deck.iter().enumerate() {
        assert_eq!(card.rank, ranks[i / 4]);
        assert_eq!(card.suit, suits[i % 4]);
    }
}

#[test]
fn deck_holds_every_card_once() {
    let deck = full();
    for rank in Rank::all() {
        for suit in Suit::all() {
            let card = Card { suit, rank };
            assert_eq!(deck.iter().filter(|c| **c == card).count(), 1);
        }
    }
}

#[test]
fn nothing_drawn_leaves_the_full_deck() {
    assert_eq!(part(&[]), full());
}

#[test]
fn drawing_twice_is_drawing_once() {
    let a = Card::from_str("5H").unwrap();
    let b = Card::from_str("KC").unwrap();
    assert_eq!(part(&[a, a]), part(&[a]));
    assert_eq!(part(&[a, b, a, b]), part(&[b, a]));
    assert_eq!(part(&[a, b, a]).len(), 50);
}

#[test]
fn part_keeps_the_order_of_the_deck() {
    let drawn = [
        Card::from_str("AH").unwrap(),
        Card::from_str("7D").unwrap(),
        Card::from_str("KC").unwrap(),
        Card::from_str("2S").unwrap(),
    ];
    let rest = part(&drawn);
    assert_eq!(rest.len(), 48);
    let expected: Vec<Card> = full().into_iter().filter(|c| !drawn.contains(c)).collect();
    assert_eq!(rest, expected);
}

#[test]
fn everything_drawn_leaves_nothing() {
    assert_eq!(part(&full()).len(), 0);
}

#[test]
fn contains_card_finds_what_is_there() {
    let a = Card::from_str("5H").unwrap();
    let b = Card::from_str("KC").unwrap();
    assert!(contains_card(&[a, b], b));
    assert!(!contains_card(&[a], b));
    assert!(!contains_card(&[], a));
}
