//! A pile of cards, used as a stack: the last card of the sequence is on top.

use rand::seq::SliceRandom;
use vstd::prelude::*;

use crate::models::card::{Card, CardFace, CardSuit};

verus! {

/// An ordered pile of cards. Its view lists the cards from the bottom of the
/// pile to the top.
#[derive(Debug, Clone)]
pub struct Deck {
    cards: Vec<Card>,
}

impl View for Deck {
    type V = Seq<Card>;

    closed spec fn view(&self) -> Seq<Card> {
        self.cards@
    }
}

/// The card at position `i` of a fresh pack: the suits follow one another,
/// each with its thirteen faces in order.
pub open spec fn pack_card(i: int) -> Card {
    Card { suit: CardSuit::at(i / 13), face: CardFace::at(i % 13) }
}

/// A fresh pack: the 52 cards, suit by suit and face by face.
pub open spec fn full_pack() -> Seq<Card> {
    Seq::new(52, |i: int| pack_card(i))
}

/// The place of a card in a fresh pack.
pub open spec fn pack_position(card: Card) -> int {
    card.suit.rank() * 13 + card.face.rank()
}

/// Whether `b` holds the cards of `a`, each as often, in any order.
pub open spec fn same_cards(a: Seq<Card>, b: Seq<Card>) -> bool {
    a.to_multiset() =~= b.to_multiset()
}

impl Deck {
    /// The 52 cards of a fresh pack, unshuffled.
    pub fn new_52() -> (deck: Deck)
        ensures
            deck@ == full_pack(),
    {
        let mut deck = Deck::new();
        let mut s: usize = 0;
        while s < 4
            invariant
                s <= 4,
                deck@.len() == 13 * s,
                forall|k: int| 0 <= k < deck@.len() ==> deck@[k] == pack_card(k),
            decreases 4 - s,
        {
            if let Some(suit) = CardSuit::from_index(s) {
                let mut f: usize = 0;
                while f < 13
                    invariant
                        s < 4,
                        f <= 13,
                        suit == CardSuit::at(s as int),
                        deck@.len() == 13 * s + f,
                        forall|k: int| 0 <= k < deck@.len() ==> deck@[k] == pack_card(k),
                    decreases 13 - f,
                {
                    if let Some(face) = CardFace::from_index(f) {
                        deck.push(Card::new(suit, face));
                    }
                    f += 1;
                }
            }
            s += 1;
        }
        assert(deck@ =~= full_pack());
        deck
    }

    /// A pile without cards.
    pub fn new() -> (deck: Deck)
        ensures
            deck@ == Seq::<Card>::empty(),
    {
        Deck { cards: Vec::new() }
    }

    /// Puts `card` on top of the pile.
    pub fn push(&mut self, card: Card)
        ensures
            final(self)@ == old(self)@.push(card),
    {
        self.cards.push(card);
    }

    /// Takes the top card off the pile, if there is one.
    pub fn pop(&mut self) -> (card: Option<Card>)
        ensures
            old(self)@.len() == 0 ==> card.is_none() && final(self)@ == old(self)@,
            old(self)@.len() > 0 ==> card == Some(old(self)@.last()) && final(self)@ == old(self)@.drop_last(),
    {
        self.cards.pop()
    }

    /// Moves every card of `other` onto this pile, in the order in which
    /// `other` held them; `other` is left empty.
    pub fn add(&mut self, other: &mut Deck)
        ensures
            final(self)@ == old(self)@ + old(other)@,
            final(other)@ == Seq::<Card>::empty(),
    {
        self.cards.append(&mut other.cards);
    }

    /// The top card, left where it is.
    pub fn top(&self) -> (card: Option<&Card>)
        ensures
            self@.len() == 0 ==> card.is_none(),
            self@.len() > 0 ==> card == Some(&self@.last()),
    {
        self.cards.as_slice().last()
    }

    /// Puts the cards in a random order.
    ///
    /// Trusted: the body calls `SliceRandom::shuffle` of the crate `rand` on
    /// the cards, with the generator that `rand::thread_rng` returns. The
    /// contract claims what `shuffle` documents, that it rearranges the slice
    /// in place: the pile holds the same cards afterwards, each as often as
    /// before. Nothing is claimed of their order, and nothing of a machine
    /// that cannot seed the generator.
    #[verifier::external_body]
    pub fn shuffle(&mut self)
        ensures
            same_cards(final(self)@, old(self)@),
    {
        self.cards.shuffle(&mut rand::thread_rng());
    }

    /// The number of cards in the pile.
    pub fn len(&self) -> (n: usize)
        ensures
            n == self@.len(),
    {
        self.cards.len()
    }

    /// Draws the pile down by one card: the top card, if there is one. Calling
    /// this until it returns `None` hands out every card once, top first.
    pub fn next(&mut self) -> (card: Option<Card>)
        ensures
            old(self)@.len() == 0 ==> card.is_none() && final(self)@ == old(self)@,
            old(self)@.len() > 0 ==> card == Some(old(self)@.last()) && final(self)@ == old(self)@.drop_last(),
    {
        self.pop()
    }
}

/// Two different places of a fresh pack hold two different cards.
pub proof fn lemma_pack_distinct(i: int, j: int)
    requires
        0 <= i < 52,
        0 <= j < 52,
        i != j,
    ensures
        full_pack()[i] != full_pack()[j],
{
    let a = pack_card(i);
    let b = pack_card(j);
    assert(a.suit.rank() == i / 13 && a.face.rank() == i % 13);
    assert(b.suit.rank() == j / 13 && b.face.rank() == j % 13);
}

/// Every card has its place in a fresh pack.
pub proof fn lemma_pack_complete(card: Card)
    ensures
        0 <= pack_position(card) < 52,
        full_pack()[pack_position(card)] == card,
{
    crate::models::card::lemma_suit_rank(card.suit);
    crate::models::card::lemma_face_rank(card.face);
}

} // verus!
