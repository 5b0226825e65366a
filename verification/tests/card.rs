use cribbage::card::{mask, value, Card, ParseError, Rank, Suit};

#[test]
fn test_card_to_string_1() {
    assert_eq!(Card { suit: Suit::Heart, rank: Rank::Three }.to_string(), "3H")
}

#[test]
fn test_card_from_str_1() {
    assert_eq!(Card::from_str("AH").unwrap(), Card { suit: Suit::Heart, rank: Rank::Ace })
}

#[test]
#[should_panic]
fn test_card_from_str_2() {
    Card::from_str("AHX").unwrap();
}

#[test]
#[should_panic]
fn test_card_from_str_3() {
    Card::from_str("A").unwrap();
}

#[test]
fn ten_mask() {
    assert_eq!(Card::from_str("0C").unwrap().mask(), 9)
}

#[test]
fn jack_mask() {
    assert_eq!(Card::from_str("JC").unwrap().mask(), 10)
}

#[test]
fn queen_mask() {
    assert_eq!(Card::from_str("QC").unwrap().mask(), 11)
}

#[test]
fn king_mask() {
    assert_eq!(Card::from_str("KC").unwrap().mask(), 12)
}

#[test]
fn wrong_length_is_reported_first() {
    assert_eq!(Card::from_str(""), Err(ParseError::WrongLength));
    assert_eq!(Card::from_str("A"), Err(ParseError::WrongLength));
    assert_eq!(Card::from_str("AHX"), Err(ParseError::WrongLength));
    assert_eq!(Card::from_str("XYZ"), Err(ParseError::WrongLength));
}

#[test]
fn unknown_rank_is_reported_before_unknown_suit() {
    assert_eq!(Card::from_str("1H"), Err(ParseError::UnknownRank));
    assert_eq!(Card::from_str("XY"), Err(ParseError::UnknownRank));
    assert_eq!(Card::from_str("aH"), Err(ParseError::UnknownRank));
    assert_eq!(Card::from_str("tH"), Err(ParseError::UnknownRank));
}

#[test]
fn unknown_suit_is_reported() {
    assert_eq!(Card::from_str("AX"), Err(ParseError::UnknownSuit));
    assert_eq!(Card::from_str("5 "), Err(ParseError::UnknownSuit));
}

#[test]
fn two_characters_that_are_not_ascii_are_rejected_without_panic() {
    assert_eq!(Card::from_str("é5"), Err(ParseError::UnknownRank));
    assert_eq!(Card::from_str("5é"), Err(ParseError::UnknownSuit));
    assert_eq!(Card::from_str("5♥"), Err(ParseError::UnknownSuit));
}

#[test]
fn ten_reads_from_zero_and_from_t() {
    let ten = Card { suit: Suit::Spade, rank: Rank::Ten };
    assert_eq!(Card::from_str("0S"), Ok(ten));
    assert_eq!(Card::from_str("TS"), Ok(ten));
    assert_eq!(ten.to_string(), "0S");
}

#[test]
fn lower_case_suit_is_unknown() {
    assert_eq!(Card::from_str("5h"), Err(ParseError::UnknownSuit));
    assert_eq!(Card::from_str("5s"), Err(ParseError::UnknownSuit));
    assert_eq!(Card::from_str("5d"), Err(ParseError::UnknownSuit));
    assert_eq!(Card::from_str("5c"), Err(ParseError::UnknownSuit));
    assert_eq!(Card::from_str("Ah"), Err(ParseError::UnknownSuit));
    assert_eq!(Suit::from_str("h"), Err(ParseError::UnknownSuit));
    assert_eq!(Suit::from_str("s"), Err(ParseError::UnknownSuit));
    assert_eq!(Suit::from_str("d"), Err(ParseError::UnknownSuit));
    assert_eq!(Suit::from_str("c"), Err(ParseError::UnknownSuit));
    assert_eq!(Suit::from_char('h'), None);
}

#[test]
fn only_the_four_letters_are_suits() {
    for code in 0u32..0x3000 {
        if let Some(c) = char::from_u32(code) {
            let expected = match c {
                'H' => Some(Suit::Heart),
                'S' => Some(Suit::Spade),
                'D' => Some(Suit::Diamond),
                'C' => Some(Suit::Club),
                _ => None,
            };
            assert_eq!(Suit::from_char(c), expected);
            assert_eq!(Suit::from_str(&c.to_string()), expected.ok_or(ParseError::UnknownSuit));
        }
    }
    assert_eq!(Suit::from_str(""), Err(ParseError::UnknownSuit));
}

#[test]
fn cards_are_read_from_their_codes_and_from_nothing_else() {
    let ranks = "A234567890TJQK";
    let suits = "HSDC";
    for a in 0u8..128 {
        for b in 0u8..128 {
            let code: String = [a as char, b as char].iter().collect();
            let read = Card::from_str(&code);
            if !ranks.contains(a as char) {
                assert_eq!(read, Err(ParseError::UnknownRank));
            } else if !suits.contains(b as char) {
                assert_eq!(read, Err(ParseError::UnknownSuit));
            } else {
                let written = read.unwrap().to_string();
                if a as char == 'T' {
                    assert_eq!(written, format!("0{}", b as char));
                } else {
                    assert_eq!(written, code);
                }
            }
        }
    }
}

#[test]
fn every_card_reads_back_from_what_it_writes() {
    for rank in Rank::all() {
        for suit in Suit::all() {
            let card = Card { suit, rank };
            let code = card.to_string();
            assert_eq!(code.chars().count(), 2);
            assert_eq!(Card::from_str(&code), Ok(card));
        }
    }
}

#[test]
fn every_written_code_is_written_back() {
    for r in ["A", "2", "3", "4", "5", "6", "7", "8", "9", "0", "J", "Q", "K"] {
        for s in ["H", "S", "D", "C"] {
            let code = format!("{}{}", r, s);
            assert_eq!(Card::from_str(&code).unwrap().to_string(), code);
        }
    }
}

#[test]
fn rank_and_suit_strings() {
    assert_eq!(Rank::from_str("T"), Ok(Rank::Ten));
    assert_eq!(Rank::from_str("0"), Ok(Rank::Ten));
    assert_eq!(Rank::from_str("K"), Ok(Rank::King));
    assert_eq!(Rank::from_str("k"), Err(ParseError::UnknownRank));
    assert_eq!(Rank::from_str(""), Err(ParseError::UnknownRank));
    assert_eq!(Rank::from_str("10"), Err(ParseError::UnknownRank));
    assert_eq!(Suit::from_str("d"), Err(ParseError::UnknownSuit));
    assert_eq!(Suit::from_str("D"), Ok(Suit::Diamond));
    assert_eq!(Suit::from_str("X"), Err(ParseError::UnknownSuit));
    assert_eq!(Suit::from_str("HH"), Err(ParseError::UnknownSuit));
    assert_eq!(Rank::Ten.to_string(), "0");
    assert_eq!(Suit::Club.to_string(), "C");
}

#[test]
fn masks_count_up_from_the_ace() {
    let ranks = Rank::all();
    assert_eq!(ranks.len(), 13);
    for (i, rank) in ranks.iter().enumerate() {
        assert_eq!(mask(*rank), i);
    }
}

#[test]
fn values_stop_at_ten() {
    let expected = [1, 2, 3, 4, 5, 6, 7, 8, 9, 10, 10, 10, 10];
    for (i, rank) in Rank::all().iter().enumerate() {
        assert_eq!(value(*rank), expected[i]);
        assert_eq!(Card { suit: Suit::Club, rank: *rank }.value(), expected[i]);
    }
}

#[test]
fn sort_key_orders_as_the_derived_order_does() {
    let mut all: Vec<Card> = Vec::new();
    for rank in Rank::all() {
        for suit in Suit::all() {
            all.push(Card { suit, rank });
        }
    }
    for a in &all {
        for b in &all {
            assert_eq!(a.sort_key() < b.sort_key(), a < b);
            assert_eq!(a.sort_key() == b.sort_key(), a == b);
        }
    }
}
