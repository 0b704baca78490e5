//! Playing cards and what they score.

use vstd::prelude::*;

verus! {

/// The four suits, in the fixed order in which a fresh pack lists them.
#[derive(Debug, Copy, Clone, PartialEq, Eq, PartialOrd, Ord, Hash, Structural)]
pub enum CardSuit {
    Spade,
    Heart,
    Diamond,
    Club,
}

/// The thirteen faces, in the fixed order in which a fresh pack lists them.
#[derive(Debug, Copy, Clone, PartialEq, Eq, PartialOrd, Ord, Hash, Structural)]
pub enum CardFace {
    Ace,
    Two,
    Three,
    Four,
    Five,
    Six,
    Seven,
    Eight,
    Nine,
    Ten,
    Jack,
    Queen,
    King,
}

/// One card: a suit and a face. It never changes once made.
#[derive(Debug, Clone, Copy, PartialEq, Eq, Hash, Structural)]
pub struct Card {
    pub suit: CardSuit,
    pub face: CardFace,
}

impl CardSuit {
    /// The position of the suit in the fixed order, from 0 to 3.
    pub open spec fn rank(self) -> int {
        match self {
            CardSuit::Spade => 0,
            CardSuit::Heart => 1,
            CardSuit::Diamond => 2,
            CardSuit::Club => 3,
        }
    }

    /// The suit at a position of the fixed order.
    pub open spec fn at(i: int) -> CardSuit {
        if i == 0 {
            CardSuit::Spade
        } else if i == 1 {
            CardSuit::Heart
        } else if i == 2 {
            CardSuit::Diamond
        } else {
            CardSuit::Club
        }
    }

    /// The position of the suit in the fixed order.
    pub fn index(self) -> (r: u8)
        ensures
            r == self.rank(),
    {
        match self {
            CardSuit::Spade => 0,
            CardSuit::Heart => 1,
            CardSuit::Diamond => 2,
            CardSuit::Club => 3,
        }
    }

    /// The suit at position `i` of the fixed order, if there is one.
    pub fn from_index(i: usize) -> (r: Option<CardSuit>)
        ensures
            i < 4 ==> r == Some(CardSuit::at(i as int)),
            i >= 4 ==> r.is_none(),
    {
        match i {
            0 => Some(CardSuit::Spade),
            1 => Some(CardSuit::Heart),
            2 => Some(CardSuit::Diamond),
            3 => Some(CardSuit::Club),
            _ => None,
        }
    }
}

impl CardFace {
    /// The position of the face in the fixed order, from 0 to 12.
    pub open spec fn rank(self) -> int {
        match self {
            CardFace::Ace => 0,
            CardFace::Two => 1,
            CardFace::Three => 2,
            CardFace::Four => 3,
            CardFace::Five => 4,
            CardFace::Six => 5,
            CardFace::Seven => 6,
            CardFace::Eight => 7,
            CardFace::Nine => 8,
            CardFace::Ten => 9,
            CardFace::Jack => 10,
            CardFace::Queen => 11,
            CardFace::King => 12,
        }
    }

    /// The face at a position of the fixed order.
    pub open spec fn at(i: int) -> CardFace {
        if i == 0 {
            CardFace::Ace
        } else if i == 1 {
            CardFace::Two
        } else if i == 2 {
            CardFace::Three
        } else if i == 3 {
            CardFace::Four
        } else if i == 4 {
            CardFace::Five
        } else if i == 5 {
            CardFace::Six
        } else if i == 6 {
            CardFace::Seven
        } else if i == 7 {
            CardFace::Eight
        } else if i == 8 {
            CardFace::Nine
        } else if i == 9 {
            CardFace::Ten
        } else if i == 10 {
            CardFace::Jack
        } else if i == 11 {
            CardFace::Queen
        } else {
            CardFace::King
        }
    }

    /// What a card of this face scores: 11 for an ace, 10 for a court card,
    /// the number of pips otherwise.
    pub open spec fn points(self) -> nat {
        match self {
            CardFace::Ace => 11,
            CardFace::Jack | CardFace::Queen | CardFace::King => 10,
            _ => (self.rank() + 1) as nat,
        }
    }

    /// The face at position `i` of the fixed order, if there is one.
    pub fn from_index(i: usize) -> (r: Option<CardFace>)
        ensures
            i < 13 ==> r == Some(CardFace::at(i as int)),
            i >= 13 ==> r.is_none(),
    {
        match i {
            0 => Some(CardFace::Ace),
            1 => Some(CardFace::Two),
            2 => Some(CardFace::Three),
            3 => Some(CardFace::Four),
            4 => Some(CardFace::Five),
            5 => Some(CardFace::Six),
            6 => Some(CardFace::Seven),
            7 => Some(CardFace::Eight),
            8 => Some(CardFace::Nine),
            9 => Some(CardFace::Ten),
            10 => Some(CardFace::Jack),
            11 => Some(CardFace::Queen),
            12 => Some(CardFace::King),
            _ => None,
        }
    }
}

impl Card {
    /// What the card scores in a hand.
    pub open spec fn points(self) -> nat {
        self.face.points()
    }

    /// A card of the given suit and face.
    pub fn new(suit: CardSuit, face: CardFace) -> (card: Card)
        ensures
            card == (Card { suit, face }),
    {
        Card { suit, face }
    }

    /// What the card scores in a hand: 11 for an ace, 10 for a ten or a
    /// court card, the number of pips otherwise.
    pub fn blitz_value(&self) -> (value: u32)
        ensures
            value == self.points(),
            2 <= value <= 11,
    {
        match self.face {
            CardFace::Ace => 11,
            CardFace::Two => 2,
            CardFace::Three => 3,
            CardFace::Four => 4,
            CardFace::Five => 5,
            CardFace::Six => 6,
            CardFace::Seven => 7,
            CardFace::Eight => 8,
            CardFace::Nine => 9,
            CardFace::Ten => 10,
            CardFace::Jack => 10,
            CardFace::Queen => 10,
            CardFace::King => 10,
        }
    }
}

/// A suit is found again from its position, and a position from its suit.
pub proof fn lemma_suit_rank(s: CardSuit)
    ensures
        0 <= s.rank() < 4,
        CardSuit::at(s.rank()) == s,
{
}

/// A face is found again from its position, and a position from its face.
pub proof fn lemma_face_rank(f: CardFace)
    ensures
        0 <= f.rank() < 13,
        CardFace::at(f.rank()) == f,
{
}

} // verus!
