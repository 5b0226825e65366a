//! Suits, ranks and cards, with their two-character codes.

use vstd::prelude::*;
use vstd::string::*;

verus! {

/// The four suits a card can have.
#[derive(Debug, Eq, PartialEq, Ord, PartialOrd, Clone, Copy, Hash, Structural)]
pub enum Suit {
    Heart,
    Spade,
    Diamond,
    Club,
}

/// The thirteen ranks a card can have, from the ace up to the king.
#[derive(Debug, Eq, PartialEq, Ord, PartialOrd, Clone, Copy, Hash, Structural)]
pub enum Rank {
    Ace,
    Two,
    Three,
    Four,
    Five,
    Six,
    Seven,
    Eight,
    Nine,
    Ten,
    Jack,
    Queen,
    King,
}

/// Why a string is not the code of a card, a rank or a suit.
#[derive(Debug, Eq, PartialEq, Clone, Copy, Structural)]
pub enum ParseError {
    /// The string does not have the length of a code.
    WrongLength,
    /// The rank character is none of `A 2 3 4 5 6 7 8 9 0 T J Q K`.
    UnknownRank,
    /// The suit character is none of `H S D C`.
    UnknownSuit,
}

/// A card is a unique combination of suit and rank.
#[derive(Debug, Eq, PartialEq, Ord, PartialOrd, Clone, Copy, Hash, Structural)]
pub struct Card {
    pub suit: Suit,
    pub rank: Rank,
}

impl Suit {
    /// Position of the suit in the order hearts, spades, diamonds, clubs.
    pub open spec fn index(self) -> int {
        match self {
            Suit::Heart => 0,
            Suit::Spade => 1,
            Suit::Diamond => 2,
            Suit::Club => 3,
        }
    }

    /// The suit at position `i`; clubs for every position past the third.
    pub open spec fn at(i: int) -> Suit {
        if i <= 0 {
            Suit::Heart
        } else if i == 1 {
            Suit::Spade
        } else if i == 2 {
            Suit::Diamond
        } else {
            Suit::Club
        }
    }

    /// The character a suit is written with.
    pub open spec fn code(self) -> char {
        match self {
            Suit::Heart => 'H',
            Suit::Spade => 'S',
            Suit::Diamond => 'D',
            Suit::Club => 'C',
        }
    }

    /// The suit a character stands for: the first letter of its name, in
    /// upper case. No other character stands for a suit.
    pub open spec fn of_code(c: char) -> Option<Suit> {
        if c == 'H' {
            Some(Suit::Heart)
        } else if c == 'S' {
            Some(Suit::Spade)
        } else if c == 'D' {
            Some(Suit::Diamond)
        } else if c == 'C' {
            Some(Suit::Club)
        } else {
            None
        }
    }

    /// The suit a string of one character stands for.
    pub open spec fn parse(s: Seq<char>) -> Result<Suit, ParseError> {
        if s.len() == 1 && Suit::of_code(s[0]) is Some {
            Ok(Suit::of_code(s[0])->0)
        } else {
            Err(ParseError::UnknownSuit)
        }
    }

    /// Reads one suit character.
    pub fn from_char(c: char) -> (r: Option<Suit>)
        ensures
            r == Suit::of_code(c),
    {
        match c {
            'H' => Some(Suit::Heart),
            'S' => Some(Suit::Spade),
            'D' => Some(Suit::Diamond),
            'C' => Some(Suit::Club),
            _ => None,
        }
    }

    /// Converts a string into a suit.
    ///
    /// The possible strings are the first letter of the suit names in upper
    /// case (H, S, D and C); every other string is an error.
    pub fn from_str(s: &str) -> (r: Result<Suit, ParseError>)
        ensures
            r == Suit::parse(s@),
    {
        if s.unicode_len() != 1 {
            return Err(ParseError::UnknownSuit);
        }
        match Suit::from_char(s.get_char(0)) {
            Some(suit) => Ok(suit),
            None => Err(ParseError::UnknownSuit),
        }
    }

    /// The suit's string form: its upper-case letter.
    pub fn to_str(self) -> (r: &'static str)
        ensures
            r@ == seq![self.code()],
    {
        proof {
            reveal_strlit("H");
            reveal_strlit("S");
            reveal_strlit("D");
            reveal_strlit("C");
        }
        let r = match self {
            Suit::Heart => "H",
            Suit::Spade => "S",
            Suit::Diamond => "D",
            Suit::Club => "C",
        };
        assert(r@ =~= seq![self.code()]);
        r
    }

    /// The suit's string form as an owned string.
    pub fn to_string(&self) -> (r: String)
        ensures
            r@ == seq![self.code()],
    {
        String::from_str(self.to_str())
    }

    /// All four suits in their order.
    pub fn all() -> (r: Vec<Suit>)
        ensures
            r@.len() == 4,
            forall|i: int| 0 <= i < 4 ==> r@[i] == Suit::at(i),
    {
        vec![Suit::Heart, Suit::Spade, Suit::Diamond, Suit::Club]
    }
}

impl Rank {
    /// Position of the rank from the ace (0) to the king (12).
    pub open spec fn index(self) -> int {
        match self {
            Rank::Ace => 0,
            Rank::Two => 1,
            Rank::Three => 2,
            Rank::Four => 3,
            Rank::Five => 4,
            Rank::Six => 5,
            Rank::Seven => 6,
            Rank::Eight => 7,
            Rank::Nine => 8,
            Rank::Ten => 9,
            Rank::Jack => 10,
            Rank::Queen => 11,
            Rank::King => 12,
        }
    }

    /// The rank at position `i`; the king for every position past the
    /// twelfth.
    pub open spec fn at(i: int) -> Rank {
        if i <= 0 {
            Rank::Ace
        } else if i == 1 {
            Rank::Two
        } else if i == 2 {
            Rank::Three
        } else if i == 3 {
            Rank::Four
        } else if i == 4 {
            Rank::Five
        } else if i == 5 {
            Rank::Six
        } else if i == 6 {
            Rank::Seven
        } else if i == 7 {
            Rank::Eight
        } else if i == 8 {
            Rank::Nine
        } else if i == 9 {
            Rank::Ten
        } else if i == 10 {
            Rank::Jack
        } else if i == 11 {
            Rank::Queen
        } else {
            Rank::King
        }
    }

    /// What the rank counts for in a fifteen: its position plus one, and ten
    /// from the ten upwards.
    pub open spec fn points(self) -> int {
        if self.index() >= 9 {
            10
        } else {
            self.index() + 1
        }
    }

    /// The character a rank is written with. The ten is written `0`.
    pub open spec fn code(self) -> char {
        match self {
            Rank::Ace => 'A',
            Rank::Two => '2',
            Rank::Three => '3',
            Rank::Four => '4',
            Rank::Five => '5',
            Rank::Six => '6',
            Rank::Seven => '7',
            Rank::Eight => '8',
            Rank::Nine => '9',
            Rank::Ten => '0',
            Rank::Jack => 'J',
            Rank::Queen => 'Q',
            Rank::King => 'K',
        }
    }

    /// The rank a character stands for. The ten is read from `0` and from `T`.
    pub open spec fn of_code(c: char) -> Option<Rank> {
        if c == 'A' {
            Some(Rank::Ace)
        } else if c == '2' {
            Some(Rank::Two)
        } else if c == '3' {
            Some(Rank::Three)
        } else if c == '4' {
            Some(Rank::Four)
        } else if c == '5' {
            Some(Rank::Five)
        } else if c == '6' {
            Some(Rank::Six)
        } else if c == '7' {
            Some(Rank::Seven)
        } else if c == '8' {
            Some(Rank::Eight)
        } else if c == '9' {
            Some(Rank::Nine)
        } else if c == '0' || c == 'T' {
            Some(Rank::Ten)
        } else if c == 'J' {
            Some(Rank::Jack)
        } else if c == 'Q' {
            Some(Rank::Queen)
        } else if c == 'K' {
            Some(Rank::King)
        } else {
            None
        }
    }

    /// The rank a string of one character stands for.
    pub open spec fn parse(s: Seq<char>) -> Result<Rank, ParseError> {
        if s.len() == 1 && Rank::of_code(s[0]) is Some {
            Ok(Rank::of_code(s[0])->0)
        } else {
            Err(ParseError::UnknownRank)
        }
    }

    /// Reads one rank character.
    pub fn from_char(c: char) -> (r: Option<Rank>)
        ensures
            r == Rank::of_code(c),
    {
        match c {
            'A' => Some(Rank::Ace),
            '2' => Some(Rank::Two),
            '3' => Some(Rank::Three),
            '4' => Some(Rank::Four),
            '5' => Some(Rank::Five),
            '6' => Some(Rank::Six),
            '7' => Some(Rank::Seven),
            '8' => Some(Rank::Eight),
            '9' => Some(Rank::Nine),
            '0' | 'T' => Some(Rank::Ten),
            'J' => Some(Rank::Jack),
            'Q' => Some(Rank::Queen),
            'K' => Some(Rank::King),
            _ => None,
        }
    }

    /// Converts a string into a rank.
    pub fn from_str(s: &str) -> (r: Result<Rank, ParseError>)
        ensures
            r == Rank::parse(s@),
    {
        if s.unicode_len() != 1 {
            return Err(ParseError::UnknownRank);
        }
        match Rank::from_char(s.get_char(0)) {
            Some(rank) => Ok(rank),
            None => Err(ParseError::UnknownRank),
        }
    }

    /// The rank's string form: one character.
    pub fn to_str(self) -> (r: &'static str)
        ensures
            r@ == seq![self.code()],
    {
        proof {
            reveal_strlit("A");
            reveal_strlit("2");
            reveal_strlit("3");
            reveal_strlit("4");
            reveal_strlit("5");
            reveal_strlit("6");
            reveal_strlit("7");
            reveal_strlit("8");
            reveal_strlit("9");
            reveal_strlit("0");
            reveal_strlit("J");
            reveal_strlit("Q");
            reveal_strlit("K");
        }
        let r = match self {
            Rank::Ace => "A",
            Rank::Two => "2",
            Rank::Three => "3",
            Rank::Four => "4",
            Rank::Five => "5",
            Rank::Six => "6",
            Rank::Seven => "7",
            Rank::Eight => "8",
            Rank::Nine => "9",
            Rank::Ten => "0",
            Rank::Jack => "J",
            Rank::Queen => "Q",
            Rank::King => "K",
        };
        assert(r@ =~= seq![self.code()]);
        r
    }

    /// The rank's string form as an owned string.
    pub fn to_string(&self) -> (r: String)
        ensures
            r@ == seq![self.code()],
    {
        String::from_str(self.to_str())
    }

    /// All thirteen ranks from the ace up to the king.
    pub fn all() -> (r: Vec<Rank>)
        ensures
            r@.len() == 13,
            forall|i: int| 0 <= i < 13 ==> r@[i] == Rank::at(i),
    {
        vec![
            Rank::Ace,
            Rank::Two,
            Rank::Three,
            Rank::Four,
            Rank::Five,
            Rank::Six,
            Rank::Seven,
            Rank::Eight,
            Rank::Nine,
            Rank::Ten,
            Rank::Jack,
            Rank::Queen,
            Rank::King,
        ]
    }
}

/// The rank of a card converted into a `usize`.
///
/// This is helpful for calculating runs and pairs, where the rank serves as
/// an index into an array.
pub fn mask(r: Rank) -> (m: usize)
    ensures
        m == r.index(),
        m < 13,
{
    match r {
        Rank::Ace => 0,
        Rank::Two => 1,
        Rank::Three => 2,
        Rank::Four => 3,
        Rank::Five => 4,
        Rank::Six => 5,
        Rank::Seven => 6,
        Rank::Eight => 7,
        Rank::Nine => 8,
        Rank::Ten => 9,
        Rank::Jack => 10,
        Rank::Queen => 11,
        Rank::King => 12,
    }
}

/// The value a rank has when calculating fifteens.
///
/// All face cards have value 10 and aces are always one.
pub fn value(r: Rank) -> (v: i32)
    ensures
        v == r.points(),
        1 <= v <= 10,
{
    match r {
        Rank::Ace => 1,
        Rank::Two => 2,
        Rank::Three => 3,
        Rank::Four => 4,
        Rank::Five => 5,
        Rank::Six => 6,
        Rank::Seven => 7,
        Rank::Eight => 8,
        Rank::Nine => 9,
        Rank::Ten | Rank::Jack | Rank::Queen | Rank::King => 10,
    }
}

impl Card {
    /// The card's two-character code: rank character, then suit character.
    pub open spec fn code(self) -> Seq<char> {
        seq![self.rank.code(), self.suit.code()]
    }

    /// What a string reads as: a card, or the first reason why it is none.
    /// The length is looked at first, then the rank, then the suit.
    pub open spec fn parse(s: Seq<char>) -> Result<Card, ParseError> {
        if s.len() != 2 {
            Err(ParseError::WrongLength)
        } else if Rank::of_code(s[0]) is None {
            Err(ParseError::UnknownRank)
        } else if Suit::of_code(s[1]) is None {
            Err(ParseError::UnknownSuit)
        } else {
            Ok(Card { suit: Suit::of_code(s[1])->0, rank: Rank::of_code(s[0])->0 })
        }
    }

    /// Whether a string is the code that a card is written with, and not
    /// only one that reads as a card: it does not write the ten as `T`.
    pub open spec fn is_canonical_code(s: Seq<char>) -> bool {
        &&& Card::parse(s) is Ok
        &&& s[0] != 'T'
    }

    /// What the card counts for in a fifteen.
    pub open spec fn points(self) -> int {
        self.rank.points()
    }

    /// Reads a card from its two-character code.
    pub fn from_str(s: &str) -> (r: Result<Card, ParseError>)
        ensures
            r == Card::parse(s@),
    {
        if s.unicode_len() != 2 {
            return Err(ParseError::WrongLength);
        }
        let the_rank = match Rank::from_char(s.get_char(0)) {
            Some(rank) => rank,
            None => { return Err(ParseError::UnknownRank); },
        };
        let the_suit = match Suit::from_char(s.get_char(1)) {
            Some(suit) => suit,
            None => { return Err(ParseError::UnknownSuit); },
        };
        Ok(Card { suit: the_suit, rank: the_rank })
    }

    /// Writes the card as its two-character code.
    pub fn to_string(&self) -> (r: String)
        ensures
            r@ == self.code(),
    {
        let r = String::from_str(self.rank.to_str()).concat(self.suit.to_str());
        assert(r@ =~= self.code());
        r
    }

    /// The position of the card's rank, from the ace (0) to the king (12).
    #[must_use]
    pub fn mask(self) -> (m: usize)
        ensures
            m == self.rank.index(),
            m < 13,
    {
        mask(self.rank)
    }

    /// What the card counts for in a fifteen.
    #[must_use]
    pub fn value(self) -> (v: i32)
        ensures
            v == self.rank.points(),
            1 <= v <= 10,
    {
        value(self.rank)
    }
}

/// Reading what was written gives the card back: every card's code parses,
/// and parses to that card.
pub proof fn lemma_parse_code(card: Card)
    ensures
        Card::parse(card.code()) == Ok::<Card, ParseError>(card),
        Card::is_canonical_code(card.code()),
{
}

/// Writing what was read gives the code back, for every code that a card is
/// written with. The one code that reads as a card and is not written back
/// unchanged has `T` for the ten; it is written back with `0` in its place.
pub proof fn lemma_code_parse(s: Seq<char>)
    requires
        Card::parse(s) is Ok,
    ensures
        Card::is_canonical_code(s) <==> Card::parse(s)->Ok_0.code() == s,
        s[0] == 'T' ==> Card::parse(s)->Ok_0.code() == s.update(0, '0'),
{
    let card = Card::parse(s)->Ok_0;
    if Card::is_canonical_code(s) {
        assert(card.code() =~= s);
    } else {
        assert(card.code() =~= s.update(0, '0'));
    }
}

/// A string reads as a suit exactly where it is one of the letters `H`, `S`,
/// `D`, `C`, and it reads as the suit that is written with that letter.
pub proof fn lemma_suit_codes(s: Seq<char>)
    ensures
        Suit::parse(s) is Ok <==> s == seq!['H'] || s == seq!['S'] || s == seq!['D'] || s == seq![
            'C',
        ],
        Suit::parse(s) is Ok ==> seq![Suit::parse(s)->Ok_0.code()] == s,
        Suit::parse(s) is Err ==> Suit::parse(s) == Err::<Suit, ParseError>(
            ParseError::UnknownSuit,
        ),
{
    if Suit::parse(s) is Ok {
        assert(s =~= seq![s[0]]);
    }
    assert(seq!['H'].len() == 1 && seq!['H'][0] == 'H');
    assert(seq!['S'].len() == 1 && seq!['S'][0] == 'S');
    assert(seq!['D'].len() == 1 && seq!['D'][0] == 'D');
    assert(seq!['C'].len() == 1 && seq!['C'][0] == 'C');
}

/// A string reads as a card exactly where it has two characters, the first
/// of them a rank's and the second one of the letters `H`, `S`, `D`, `C`.
pub proof fn lemma_card_codes(s: Seq<char>)
    ensures
        Card::parse(s) is Err <==> s.len() != 2 || Rank::of_code(s[0]) is None || !(s[1] == 'H'
            || s[1] == 'S' || s[1] == 'D' || s[1] == 'C'),
        Card::parse(s) is Ok ==> Card::parse(s)->Ok_0.suit.code() == s[1] && Rank::of_code(s[0])
            == Some(Card::parse(s)->Ok_0.rank),
{
}

} // verus!
