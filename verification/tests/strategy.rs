use cribbage::card::Card;
use cribbage::hand::Hand;
use cribbage::strategy::{MaxCurrentScore, RandStrat, Strategy};
use rand::rngs::StdRng;
use rand::SeedableRng;

fn codes(cs: &[&str]) -> Vec<Card> {
    cs.iter().map(|x| Card::from_str(x).unwrap()).collect()
}

#[test]
fn score_without_cut() {
    assert_eq!(Hand::score_nocut(&codes(&["2H", "4H", "6H", "8H"])), 4);
    assert_eq!(Hand::score_nocut(&codes(&["2H", "4H", "6H", "8S"])), 0);
    assert_eq!(Hand::score_nocut(&codes(&["5H", "5S", "5D", "JC"])), 14);
    assert_eq!(Hand::score_nocut(&codes(&["AH", "2S", "3D", "4C"])), 4);
    assert_eq!(Hand::score_nocut(&codes(&["JH", "QS", "KD", "KC"])), 8);
    assert_eq!(Hand::score_nocut(&codes(&["7H", "7S", "8D", "8C"])), 12);
    // the jack of any suit is no nobs without a cut
    assert_eq!(Hand::score_nocut(&codes(&["JH", "2S", "4D", "6C"])), 0);
}

#[test]
fn random_strategy_keeps_four_of_the_cards_dealt() {
    let dealt = codes(&["5H", "5S", "5D", "JC", "2H", "9S"]);
    for seed in 0..50 {
        let mut strategy = RandStrat { rng: StdRng::seed_from_u64(seed) };
        let kept = strategy.keep(&dealt);
        for (i, card) in kept.iter().enumerate() {
            assert!(dealt.contains(card));
            for other in &kept[i + 1..] {
                assert_ne!(card, other);
            }
        }
    }
}

#[test]
fn random_strategy_keeps_all_of_four_cards() {
    let dealt = codes(&["5H", "5S", "5D", "JC"]);
    let mut strategy = RandStrat { rng: StdRng::seed_from_u64(3) };
    let mut kept = strategy.keep(&dealt).to_vec();
    kept.sort();
    let mut expected = dealt.clone();
    expected.sort();
    assert_eq!(kept, expected);
}

#[test]
fn random_strategy_does_not_always_keep_the_first_four() {
    let dealt = codes(&["5H", "5S", "5D", "JC", "2H", "9S"]);
    let mut strategy = RandStrat { rng: StdRng::seed_from_u64(11) };
    let mut differs = false;
    for _ in 0..50 {
        if strategy.keep(&dealt).to_vec() != dealt[..4].to_vec() {
            differs = true;
        }
    }
    assert!(differs);
}

#[test]
fn best_strategy_keeps_what_scores_most() {
    let mut strategy = MaxCurrentScore {};
    let dealt = codes(&["5H", "2H", "5S", "9S", "5D", "JC"]);
    assert_eq!(strategy.keep(&dealt), [dealt[0], dealt[2], dealt[4], dealt[5]]);
    let dealt = codes(&["AH", "2H", "3H", "KH", "9S", "6D"]);
    // the flush of four scores 4 and its run 3; 9 and 6 make a fifteen
    // with nothing else
    assert_eq!(strategy.keep(&dealt), [dealt[0], dealt[1], dealt[2], dealt[3]]);
}

#[test]
fn best_strategy_keeps_the_last_of_the_best() {
    let mut strategy = MaxCurrentScore {};
    // aces and kings, aces with 7 and 8, kings with 7 and 8 all score four
    let dealt = codes(&["AH", "AS", "KD", "KC", "7H", "8S"]);
    assert_eq!(strategy.keep(&dealt), [dealt[2], dealt[3], dealt[4], dealt[5]]);
    // of four cards there is one set to keep
    let dealt = codes(&["AH", "AS", "KD", "KC"]);
    assert_eq!(strategy.keep(&dealt), [dealt[0], dealt[1], dealt[2], dealt[3]]);
}
