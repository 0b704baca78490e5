use blitz::error::Error;
use blitz::models::card::{Card, CardFace, CardSuit};
use blitz::models::deck::Deck;
use blitz::models::hand::Hand;

use CardFace::{Ace, Five, Four, Jack, King, Queen, Ten, Three, Two};
use CardSuit::{Club, Diamond, Heart, Spade};

/// The hand with `a` in slot 0, `b` in slot 1 and `c` in slot 2.
fn hand_of(a: Card, b: Card, c: Card) -> Hand {
    let mut deck = Deck::new();
    deck.push(c);
    deck.push(b);
    deck.push(a);
    Hand::deal(&mut deck).unwrap()
}

fn c(suit: CardSuit, face: CardFace) -> Card {
    Card::new(suit, face)
}

#[test]
fn value_of_one_suit_is_the_sum() {
    assert_eq!(hand_of(c(Spade, Ace), c(Spade, Two), c(Spade, Three)).value(), 16);
}

#[test]
fn value_of_three_suits_is_the_best_card() {
    assert_eq!(hand_of(c(Spade, Ace), c(Heart, King), c(Diamond, King)).value(), 11);
}

#[test]
fn value_of_ace_and_two_tens_of_a_suit_is_31() {
    assert_eq!(hand_of(c(Spade, Ace), c(Spade, King), c(Spade, Queen)).value(), 31);
    assert_eq!(hand_of(c(Club, Jack), c(Club, Ace), c(Club, Ten)).value(), 31);
}

#[test]
fn value_of_ace_king_and_a_low_card_of_a_suit() {
    assert_eq!(hand_of(c(Spade, Ace), c(Spade, King), c(Spade, Five)).value(), 26);
}

#[test]
fn value_counts_a_suit_whose_cards_lie_apart() {
    assert_eq!(hand_of(c(Spade, King), c(Heart, Five), c(Spade, Ace)).value(), 21);
    assert_eq!(hand_of(c(Club, Four), c(Spade, Five), c(Club, Three)).value(), 7);
    assert_eq!(hand_of(c(Diamond, Two), c(Diamond, Three), c(Heart, Four)).value(), 5);
}

#[test]
fn value_takes_the_best_of_two_suits() {
    assert_eq!(hand_of(c(Heart, Two), c(Heart, Three), c(Club, King)).value(), 10);
    assert_eq!(hand_of(c(Heart, Queen), c(Diamond, Three), c(Diamond, Four)).value(), 10);
    assert_eq!(hand_of(c(Heart, Five), c(Diamond, Three), c(Diamond, Four)).value(), 7);
}

#[test]
fn value_gives_no_bonus_for_three_of_a_kind() {
    assert_eq!(hand_of(c(Heart, King), c(Diamond, King), c(Club, King)).value(), 10);
}

#[test]
fn value_does_not_depend_on_the_slots() {
    let a = c(Spade, Ace);
    let b = c(Heart, King);
    let d = c(Spade, Four);
    for hand in [
        hand_of(a, b, d),
        hand_of(a, d, b),
        hand_of(b, a, d),
        hand_of(b, d, a),
        hand_of(d, a, b),
        hand_of(d, b, a),
    ] {
        assert_eq!(hand.value(), 15);
    }
}

#[test]
fn deal_takes_the_top_three_in_pop_order() {
    let mut deck = Deck::new_52();
    let hand = Hand::deal(&mut deck).unwrap();
    assert_eq!(deck.len(), 49);
    assert_eq!(hand.cards(), [&c(Club, King), &c(Club, Queen), &c(Club, Jack)]);
    assert_eq!(deck.top(), Some(&c(Club, Ten)));
    assert_eq!(hand.value(), 30);
}

#[test]
fn deal_of_exactly_three_empties_the_deck() {
    let mut deck = Deck::new();
    deck.push(c(Spade, Two));
    deck.push(c(Heart, Three));
    deck.push(c(Club, Four));
    let hand = Hand::deal(&mut deck).unwrap();
    assert_eq!(deck.len(), 0);
    assert_eq!(hand.cards(), [&c(Club, Four), &c(Heart, Three), &c(Spade, Two)]);
}

#[test]
fn deal_fails_on_a_deck_of_fewer_than_three() {
    for n in 0..3 {
        let mut deck = Deck::new();
        for _ in 0..n {
            deck.push(c(Spade, Two));
        }
        match Hand::deal(&mut deck) {
            Err(e) => assert_eq!(e, Error::NotEnoughCardsInDeck),
            Ok(_) => panic!("a hand of {} cards", n),
        }
        assert_eq!(deck.len(), 0);
    }
}

#[test]
fn replace_swaps_the_card_in_each_slot() {
    let mut hand = hand_of(c(Spade, Two), c(Heart, Three), c(Club, Four));
    assert_eq!(hand.replace(0, c(Spade, Ace)), Ok(c(Spade, Two)));
    assert_eq!(hand.cards(), [&c(Spade, Ace), &c(Heart, Three), &c(Club, Four)]);
    assert_eq!(hand.replace(1, c(Spade, King)), Ok(c(Heart, Three)));
    assert_eq!(hand.replace(2, c(Spade, Queen)), Ok(c(Club, Four)));
    assert_eq!(hand.cards(), [&c(Spade, Ace), &c(Spade, King), &c(Spade, Queen)]);
    assert_eq!(hand.value(), 31);
}

#[test]
fn replace_refuses_a_slot_that_is_not_there() {
    let mut hand = hand_of(c(Spade, Two), c(Heart, Three), c(Club, Four));
    assert_eq!(hand.replace(3, c(Spade, Ace)), Err(Error::InvalidHandIndex(3)));
    assert_eq!(hand.replace(usize::MAX, c(Spade, Ace)), Err(Error::InvalidHandIndex(usize::MAX)));
    assert_eq!(hand.cards(), [&c(Spade, Two), &c(Heart, Three), &c(Club, Four)]);
}
