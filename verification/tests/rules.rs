use cribbage::card::{Card, Rank};
use cribbage::deck::{full, scored_hands};
use cribbage::hand::Hand;

/// The score by the rules as a player counts them: every subset of the five
/// cards is looked at.
fn count_by_hand(held: &[Card], cut: Card) -> usize {
    let mut all: Vec<Card> = held.to_vec();
    all.push(cut);
    let mut score = 0;
    if held.iter().all(|c| c.suit == held[0].suit) {
        score += 4;
        if cut.suit == held[0].suit {
            score += 1;
        }
    }
    if held.iter().any(|c| c.rank == Rank::Jack && c.suit == cut.suit) {
        score += 1;
    }
    let mut runs = [0usize; 6];
    for subset in 0u32..32 {
        let picked: Vec<Card> = (0..5).filter(|i| subset & (1 << i) != 0).map(|i| all[i]).collect();
        if picked.iter().map(|c| c.value()).sum::<i32>() == 15 {
            score += 2;
        }
        if picked.len() == 2 && picked[0].rank == picked[1].rank {
            score += 2;
        }
        if picked.len() >= 3 {
            let mut ranks: Vec<usize> = picked.iter().map(|c| c.mask()).collect();
            ranks.sort();
            if ranks.windows(2).all(|w| w[1] == w[0] + 1) {
                runs[picked.len()] += 1;
            }
        }
    }
    // only the longest runs count
    for len in [5, 4, 3] {
        if runs[len] > 0 {
            score += runs[len] * len;
            break;
        }
    }
    score
}

#[test]
fn first_hands_score_as_counted_by_hand() {
    for (hand, score) in scored_hands(30_000) {
        assert_eq!(score, count_by_hand(&hand.hand, hand.cut), "{}", hand.to_string());
    }
}

#[test]
fn hands_all_over_the_deck_score_as_counted_by_hand() {
    let deck = full();
    let mut state: u64 = 0x2545_F491_4F6C_DD1D;
    let mut next = move |bound: usize| -> usize {
        state ^= state << 13;
        state ^= state >> 7;
        state ^= state << 17;
        (state % bound as u64) as usize
    };
    let mut highest = 0;
    for _ in 0..30_000 {
        let mut left = deck.clone();
        let mut drawn: Vec<Card> = Vec::new();
        for _ in 0..5 {
            drawn.push(left.remove(next(left.len())));
        }
        let cut = drawn.pop().unwrap();
        let hand = Hand::from_cards(drawn.clone(), cut).unwrap();
        let score = hand.score();
        assert_eq!(score, count_by_hand(&drawn, cut), "{}", hand.to_string());
        assert!(score <= 29);
        assert_ne!(score, 19);
        assert_ne!(score, 25);
        assert_ne!(score, 26);
        assert_ne!(score, 27);
        highest = highest.max(score);
    }
    assert!(highest >= 20);
}
