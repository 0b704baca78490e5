use blitz::models::card::{Card, CardFace, CardSuit};
use blitz::models::deck::Deck;

const SUITS: [CardSuit; 4] = [CardSuit::Spade, CardSuit::Heart, CardSuit::Diamond, CardSuit::Club];

const FACES: [CardFace; 13] = [
    CardFace::Ace,
    CardFace::Two,
    CardFace::Three,
    CardFace::Four,
    CardFace::Five,
    CardFace::Six,
    CardFace::Seven,
    CardFace::Eight,
    CardFace::Nine,
    CardFace::Ten,
    CardFace::Jack,
    CardFace::Queen,
    CardFace::King,
];

/// The cards of a deck, top first; the deck is used up.
fn drain(deck: &mut Deck) -> Vec<Card> {
    let mut cards = Vec::new();
    while let Some(card) = deck.next() {
        cards.push(card);
    }
    cards
}

/// The place of a card in a fresh pack.
fn place(card: &Card) -> usize {
    card.suit.index() as usize * 13 + FACES.iter().position(|f| *f == card.face).unwrap()
}

#[test]
fn card_new_keeps_suit_and_face() {
    let card = Card::new(CardSuit::Heart, CardFace::Seven);
    assert_eq!(card.suit, CardSuit::Heart);
    assert_eq!(card.face, CardFace::Seven);
    assert_eq!(card, Card { suit: CardSuit::Heart, face: CardFace::Seven });
}

#[test]
fn blitz_value_of_every_face() {
    let expected: [u32; 13] = [11, 2, 3, 4, 5, 6, 7, 8, 9, 10, 10, 10, 10];
    for suit in SUITS {
        for (face, value) in FACES.iter().zip(expected.iter()) {
            assert_eq!(Card::new(suit, *face).blitz_value(), *value);
        }
    }
}

#[test]
fn suits_and_faces_by_index() {
    for (i, suit) in SUITS.iter().enumerate() {
        assert_eq!(CardSuit::from_index(i), Some(*suit));
        assert_eq!(suit.index() as usize, i);
    }
    assert_eq!(CardSuit::from_index(4), None);
    for (i, face) in FACES.iter().enumerate() {
        assert_eq!(CardFace::from_index(i), Some(*face));
    }
    assert_eq!(CardFace::from_index(13), None);
}

#[test]
fn suits_keep_their_fixed_order() {
    assert!(CardSuit::Spade < CardSuit::Heart);
    assert!(CardSuit::Heart < CardSuit::Diamond);
    assert!(CardSuit::Diamond < CardSuit::Club);
    assert!(CardFace::Ace < CardFace::Two);
    assert!(CardFace::Queen < CardFace::King);
}

#[test]
fn new_52_yields_52_distinct_cards() {
    let mut deck = Deck::new_52();
    assert_eq!(deck.len(), 52);
    let cards = drain(&mut deck);
    assert_eq!(cards.len(), 52);
    for i in 0..52 {
        for j in (i + 1)..52 {
            assert_ne!(cards[i], cards[j]);
        }
    }
}

#[test]
fn new_52_is_suit_major_face_minor() {
    let mut deck = Deck::new_52();
    let mut cards = drain(&mut deck);
    cards.reverse();
    let mut k = 0;
    for suit in SUITS {
        for face in FACES {
            assert_eq!(cards[k], Card::new(suit, face));
            k += 1;
        }
    }
    assert_eq!(deck.top(), None);
}

#[test]
fn new_deck_is_empty() {
    let mut deck = Deck::new();
    assert_eq!(deck.len(), 0);
    assert_eq!(deck.top(), None);
    assert_eq!(deck.pop(), None);
    assert_eq!(deck.next(), None);
    assert_eq!(deck.len(), 0);
}

#[test]
fn push_pop_and_top_work_as_a_stack() {
    let two = Card::new(CardSuit::Spade, CardFace::Two);
    let king = Card::new(CardSuit::Club, CardFace::King);
    let mut deck = Deck::new();
    deck.push(two);
    assert_eq!(deck.top(), Some(&two));
    deck.push(king);
    assert_eq!(deck.len(), 2);
    assert_eq!(deck.top(), Some(&king));
    assert_eq!(deck.len(), 2);
    assert_eq!(deck.pop(), Some(king));
    assert_eq!(deck.top(), Some(&two));
    assert_eq!(deck.pop(), Some(two));
    assert_eq!(deck.pop(), None);
    assert_eq!(deck.len(), 0);
}

#[test]
fn add_moves_every_card_and_empties_the_other() {
    let a = Card::new(CardSuit::Spade, CardFace::Ace);
    let b = Card::new(CardSuit::Heart, CardFace::Two);
    let c = Card::new(CardSuit::Diamond, CardFace::Three);
    let mut deck = Deck::new();
    deck.push(a);
    let mut other = Deck::new();
    other.push(b);
    other.push(c);
    deck.add(&mut other);
    assert_eq!(other.len(), 0);
    assert_eq!(deck.len(), 3);
    assert_eq!(drain(&mut deck), vec![c, b, a]);
}

#[test]
fn next_hands_out_each_card_once_in_pop_order() {
    let a = Card::new(CardSuit::Spade, CardFace::Ace);
    let b = Card::new(CardSuit::Heart, CardFace::Two);
    let mut deck = Deck::new();
    deck.push(a);
    deck.push(b);
    assert_eq!(deck.next(), Some(b));
    assert_eq!(deck.len(), 1);
    assert_eq!(deck.next(), Some(a));
    assert_eq!(deck.next(), None);
    assert_eq!(deck.next(), None);
}

#[test]
fn shuffle_keeps_the_cards() {
    let mut deck = Deck::new_52();
    deck.shuffle();
    assert_eq!(deck.len(), 52);
    let cards = drain(&mut deck);
    let mut seen = [0usize; 52];
    for card in cards.iter() {
        seen[place(card)] += 1;
    }
    assert!(seen.iter().all(|n| *n == 1));
}

#[test]
fn shuffle_changes_the_order() {
    let mut fresh = Deck::new_52();
    let mut deck = Deck::new_52();
    deck.shuffle();
    assert_ne!(drain(&mut deck), drain(&mut fresh));
}

#[test]
fn shuffle_of_a_short_deck_keeps_the_cards() {
    let a = Card::new(CardSuit::Spade, CardFace::Ace);
    let mut deck = Deck::new();
    deck.shuffle();
    assert_eq!(deck.len(), 0);
    deck.push(a);
    deck.push(a);
    deck.shuffle();
    assert_eq!(drain(&mut deck), vec![a, a]);
}
