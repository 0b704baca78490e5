//! A hand of three cards and what it scores.

use itertools::Itertools;
use std::cmp::Ordering;
use vstd::prelude::*;

use crate::error::Error;
use crate::models::card::{lemma_suit_rank, Card, CardSuit};
use crate::models::deck::Deck;

verus! {

/// Three cards, in slots 0, 1 and 2. Its view lists them by slot.
#[derive(Debug, Clone, Copy)]
pub struct Hand {
    cards: [Card; 3],
}

impl View for Hand {
    type V = Seq<Card>;

    closed spec fn view(&self) -> Seq<Card> {
        self.cards@
    }
}

/// What the cards of one suit among `cards` score together.
pub open spec fn suit_total(cards: Seq<Card>, suit: CardSuit) -> nat
    decreases cards.len(),
{
    if cards.len() == 0 {
        0
    } else {
        suit_total(cards.drop_last(), suit) + if cards.last().suit == suit {
            cards.last().points()
        } else {
            0
        }
    }
}

/// The larger of two scores.
pub open spec fn larger(a: nat, b: nat) -> nat {
    if a >= b {
        a
    } else {
        b
    }
}

/// The best that any one suit scores among `cards`.
pub open spec fn best_total(cards: Seq<Card>) -> nat {
    larger(
        larger(suit_total(cards, CardSuit::Spade), suit_total(cards, CardSuit::Heart)),
        larger(suit_total(cards, CardSuit::Diamond), suit_total(cards, CardSuit::Club)),
    )
}

/// What `cards` score together, whatever their suits.
pub open spec fn total(cards: Seq<Card>) -> nat
    decreases cards.len(),
{
    if cards.len() == 0 {
        0
    } else {
        total(cards.drop_last()) + cards.last().points()
    }
}

/// The runs laid end to end.
pub open spec fn joined(runs: Seq<Vec<Card>>) -> Seq<Card>
    decreases runs.len(),
{
    if runs.len() == 0 {
        Seq::empty()
    } else {
        joined(runs.drop_last()) + runs.last()@
    }
}

/// The best that any one run scores; 0 where there is no run.
pub open spec fn best_run(runs: Seq<Vec<Card>>) -> nat
    decreases runs.len(),
{
    if runs.len() == 0 {
        0
    } else {
        larger(best_run(runs.drop_last()), total(runs.last()@))
    }
}

/// The cards of one suit among `cards`, in the order in which `cards`
/// holds them.
pub open spec fn of_suit(cards: Seq<Card>, suit: CardSuit) -> Seq<Card>
    decreases cards.len(),
{
    if cards.len() == 0 {
        Seq::empty()
    } else if cards.last().suit == suit {
        of_suit(cards.drop_last(), suit).push(cards.last())
    } else {
        of_suit(cards.drop_last(), suit)
    }
}

/// The cards ordered by suit, in the fixed order of suits; the cards of one
/// suit stay in the order in which `cards` holds them.
pub open spec fn arranged_by_suit(cards: Seq<Card>) -> Seq<Card> {
    of_suit(cards, CardSuit::Spade) + of_suit(cards, CardSuit::Heart) + of_suit(
        cards,
        CardSuit::Diamond,
    ) + of_suit(cards, CardSuit::Club)
}

/// Whether the suits of `cards` never step down in the fixed order.
pub open spec fn suit_sorted(cards: Seq<Card>) -> bool {
    forall|i: int, j: int|
        0 <= i <= j < cards.len() ==> cards[i].suit.rank() <= cards[j].suit.rank()
}

/// Whether `runs` cut a sequence where its suit changes, and nowhere else:
/// no run is empty, a run holds one suit, and two runs that follow one another
/// hold different suits.
pub open spec fn cut_by_suit(runs: Seq<Vec<Card>>) -> bool {
    &&& forall|k: int| 0 <= k < runs.len() ==> (#[trigger] runs[k])@.len() > 0
    &&& forall|k: int, i: int|
        0 <= k < runs.len() && 0 <= i < runs[k]@.len() ==> (#[trigger] runs[k]@[i]).suit
            == runs[k]@[0].suit
    &&& forall|k: int, next: int|
        0 <= k && next == k + 1 && next < runs.len() ==> (#[trigger] runs[k])@[0].suit != (
        #[trigger] runs[next])@[0].suit
}

/// How two cards stand to one another by suit, in the fixed order of suits.
fn suit_order(a: &Card, b: &Card) -> (order: Ordering)
    ensures
        a.suit.rank() < b.suit.rank() ==> order == Ordering::Less,
        a.suit.rank() == b.suit.rank() ==> order == Ordering::Equal,
        a.suit.rank() > b.suit.rank() ==> order == Ordering::Greater,
{
    let x: u8 = a.suit.index();
    let y: u8 = b.suit.index();
    if x < y {
        Ordering::Less
    } else if x == y {
        Ordering::Equal
    } else {
        Ordering::Greater
    }
}

/// The cards ordered by suit.
///
/// Trusted: the body calls `Itertools::sorted_by` of the crate `itertools`,
/// which sorts with `slice::sort_by` and so keeps cards that compare equal
/// in their order. The contract claims just that: the result holds the
/// spades first, then the hearts, the diamonds and the clubs, each suit in
/// the order in which the cards were given.
#[verifier::external_body]
fn sorted_by_suit(cards: Vec<Card>) -> (sorted: Vec<Card>)
    ensures
        sorted@ == arranged_by_suit(cards@),
{
    cards.into_iter().sorted_by(|a, b| suit_order(a, b)).collect()
}

/// The cards cut into runs of one suit.
///
/// Trusted: the body calls `Itertools::group_by` of the crate `itertools`
/// with the suit as the key, and collects each group in turn. The contract
/// claims what `group_by` documents: consecutive cards of one suit form one
/// group, so the groups laid end to end give the cards back, no group is
/// empty, a group holds one suit, and the suit changes from each group to the
/// next.
#[verifier::external_body]
fn grouped_by_suit(cards: Vec<Card>) -> (runs: Vec<Vec<Card>>)
    ensures
        joined(runs@) == cards@,
        cut_by_suit(runs@),
{
    let groups = cards.into_iter().group_by(|card| card.suit);
    groups.into_iter().map(|(_, group)| group.collect()).collect()
}

/// Exactly three cards as a triple.
///
/// Trusted: the body calls `Itertools::collect_tuple` of the crate
/// `itertools`. The contract claims what it documents: the triple of the
/// cards, in their order, where there are exactly three, and nothing
/// otherwise.
#[verifier::external_body]
fn collect_three(cards: Vec<Card>) -> (triple: Option<(Card, Card, Card)>)
    ensures
        cards@.len() == 3 ==> triple == Some((cards@[0], cards@[1], cards@[2])),
        cards@.len() != 3 ==> triple.is_none(),
{
    cards.into_iter().collect_tuple()
}

/// The score of one suit over two sequences laid end to end is the sum of
/// its scores over each.
pub proof fn lemma_suit_total_concat(a: Seq<Card>, b: Seq<Card>, suit: CardSuit)
    ensures
        suit_total(a + b, suit) == suit_total(a, suit) + suit_total(b, suit),
    decreases b.len(),
{
    if b.len() == 0 {
        assert(a + b =~= a);
    } else {
        assert((a + b).drop_last() =~= a + b.drop_last());
        lemma_suit_total_concat(a, b.drop_last(), suit);
    }
}

/// Cards that all have one suit score their whole total in that suit.
pub proof fn lemma_suit_total_of_one_suit(cards: Seq<Card>, suit: CardSuit)
    requires
        forall|i: int| 0 <= i < cards.len() ==> cards[i].suit == suit,
    ensures
        suit_total(cards, suit) == total(cards),
    decreases cards.len(),
{
    if cards.len() > 0 {
        lemma_suit_total_of_one_suit(cards.drop_last(), suit);
    }
}

/// A suit that no card has scores nothing.
pub proof fn lemma_suit_total_absent(cards: Seq<Card>, suit: CardSuit)
    requires
        forall|i: int| 0 <= i < cards.len() ==> cards[i].suit != suit,
    ensures
        suit_total(cards, suit) == 0,
    decreases cards.len(),
{
    if cards.len() > 0 {
        lemma_suit_total_absent(cards.drop_last(), suit);
    }
}

/// The cards of one suit among some cards all have that suit, are no more
/// than the cards, and score in their suit what the suit scores among the
/// cards.
pub proof fn lemma_of_suit(cards: Seq<Card>, suit: CardSuit)
    ensures
        of_suit(cards, suit).len() <= cards.len(),
        forall|i: int| 0 <= i < of_suit(cards, suit).len() ==> of_suit(cards, suit)[i].suit == suit,
        suit_total(of_suit(cards, suit), suit) == suit_total(cards, suit),
    decreases cards.len(),
{
    if cards.len() > 0 {
        lemma_of_suit(cards.drop_last(), suit);
        if cards.last().suit == suit {
            assert(of_suit(cards, suit).drop_last() =~= of_suit(cards.drop_last(), suit));
        }
    }
}

/// Every card is of one of the four suits.
proof fn lemma_of_suit_lengths(cards: Seq<Card>)
    ensures
        of_suit(cards, CardSuit::Spade).len() + of_suit(cards, CardSuit::Heart).len() + of_suit(
            cards,
            CardSuit::Diamond,
        ).len() + of_suit(cards, CardSuit::Club).len() == cards.len(),
    decreases cards.len(),
{
    if cards.len() > 0 {
        lemma_of_suit_lengths(cards.drop_last());
    }
}

/// Ordering cards by suit keeps their number, lets no suit step down, and
/// leaves to every suit what it scores.
pub proof fn lemma_arranged_by_suit(cards: Seq<Card>)
    ensures
        arranged_by_suit(cards).len() == cards.len(),
        suit_sorted(arranged_by_suit(cards)),
        forall|suit: CardSuit|
            suit_total(#[trigger] arranged_by_suit(cards), suit) == #[trigger] suit_total(
                cards,
                suit,
            ),
        best_total(arranged_by_suit(cards)) == best_total(cards),
{
    let spades = of_suit(cards, CardSuit::Spade);
    let hearts = of_suit(cards, CardSuit::Heart);
    let diamonds = of_suit(cards, CardSuit::Diamond);
    let clubs = of_suit(cards, CardSuit::Club);
    lemma_of_suit_lengths(cards);
    lemma_of_suit(cards, CardSuit::Spade);
    lemma_of_suit(cards, CardSuit::Heart);
    lemma_of_suit(cards, CardSuit::Diamond);
    lemma_of_suit(cards, CardSuit::Club);
    assert forall|suit: CardSuit|
        suit_total(#[trigger] arranged_by_suit(cards), suit) == #[trigger] suit_total(
            cards,
            suit,
        ) by {
        lemma_suit_total_concat(spades + hearts + diamonds, clubs, suit);
        lemma_suit_total_concat(spades + hearts, diamonds, suit);
        lemma_suit_total_concat(spades, hearts, suit);
        if suit != CardSuit::Spade {
            lemma_suit_total_absent(spades, suit);
        }
        if suit != CardSuit::Heart {
            lemma_suit_total_absent(hearts, suit);
        }
        if suit != CardSuit::Diamond {
            lemma_suit_total_absent(diamonds, suit);
        }
        if suit != CardSuit::Club {
            lemma_suit_total_absent(clubs, suit);
        }
    }
    assert(suit_total(arranged_by_suit(cards), CardSuit::Spade) == suit_total(
        cards,
        CardSuit::Spade,
    ));
    assert(suit_total(arranged_by_suit(cards), CardSuit::Heart) == suit_total(
        cards,
        CardSuit::Heart,
    ));
    assert(suit_total(arranged_by_suit(cards), CardSuit::Diamond) == suit_total(
        cards,
        CardSuit::Diamond,
    ));
    assert(suit_total(arranged_by_suit(cards), CardSuit::Club) == suit_total(
        cards,
        CardSuit::Club,
    ));
}

/// A run is no longer than all the runs laid end to end, and lies in them
/// where the runs before it end.
proof fn lemma_run_in_joined(runs: Seq<Vec<Card>>, k: int)
    requires
        0 <= k < runs.len(),
    ensures
        joined(runs.take(k)).len() + runs[k]@.len() <= joined(runs).len(),
        forall|i: int|
            0 <= i < runs[k]@.len() ==> joined(runs)[joined(runs.take(k)).len() + i]
                == runs[k]@[i],
    decreases runs.len(),
{
    if k == runs.len() - 1 {
        assert(runs.take(k) =~= runs.drop_last());
    } else {
        lemma_run_in_joined(runs.drop_last(), k);
        assert(runs.drop_last().take(k) =~= runs.take(k));
    }
}

/// No run scores more than the best suit of all the cards.
proof fn lemma_best_run_below(runs: Seq<Vec<Card>>)
    requires
        cut_by_suit(runs),
    ensures
        best_run(runs) <= best_total(joined(runs)),
    decreases runs.len(),
{
    if runs.len() > 0 {
        let before = runs.drop_last();
        let run = runs.last()@;
        let suit = run[0].suit;
        assert(cut_by_suit(before)) by {
            assert(forall|k: int| 0 <= k < before.len() ==> before[k] == runs[k]);
        }
        lemma_best_run_below(before);
        assert(runs[runs.len() - 1]@.len() > 0);
        lemma_suit_total_of_one_suit(run, suit);
        lemma_suit_total_concat(joined(before), run, CardSuit::Spade);
        lemma_suit_total_concat(joined(before), run, CardSuit::Heart);
        lemma_suit_total_concat(joined(before), run, CardSuit::Diamond);
        lemma_suit_total_concat(joined(before), run, CardSuit::Club);
    }
}

/// Where the cards are ordered by suit, no suit scores more than the best
/// run: all its cards stand in one run.
proof fn lemma_suit_total_below(runs: Seq<Vec<Card>>, suit: CardSuit)
    requires
        cut_by_suit(runs),
        suit_sorted(joined(runs)),
    ensures
        suit_total(joined(runs), suit) <= best_run(runs),
    decreases runs.len(),
{
    if runs.len() > 0 {
        let before = runs.drop_last();
        let run = runs.last()@;
        let all = joined(runs);
        let start = joined(before).len() as int;
        assert(runs[runs.len() - 1]@.len() > 0);
        assert(cut_by_suit(before)) by {
            assert(forall|k: int| 0 <= k < before.len() ==> before[k] == runs[k]);
        }
        assert forall|i: int, j: int| 0 <= i <= j < start implies joined(before)[i].suit.rank()
            <= joined(before)[j].suit.rank() by {
            assert(joined(before)[i] == all[i]);
            assert(joined(before)[j] == all[j]);
        }
        lemma_suit_total_below(before, suit);
        lemma_suit_total_concat(joined(before), run, suit);
        if run[0].suit == suit {
            lemma_suit_total_of_one_suit(run, suit);
            if before.len() > 0 {
                let prev = before.last()@;
                let k = before.len() - 1;
                assert(runs[k]@.len() > 0);
                assert(runs[k]@[0].suit != runs[k + 1]@[0].suit);
                lemma_run_in_joined(before, k);
                assert(before.take(k) =~= before.drop_last());
                let p = start - 1;
                assert(joined(before)[p] == prev[prev.len() - 1]);
                assert(runs[k]@[prev.len() - 1].suit == runs[k]@[0].suit);
                assert(all[p].suit == prev[0].suit);
                assert(all[start] == run[0]);
                lemma_suit_rank(prev[0].suit);
                lemma_suit_rank(suit);
                assert(all[p].suit.rank() <= all[start].suit.rank());
                assert(all[p].suit.rank() < suit.rank());
                assert forall|i: int| 0 <= i < start implies joined(before)[i].suit != suit by {
                    assert(all[i].suit.rank() <= all[p].suit.rank());
                }
            }
            lemma_suit_total_absent(joined(before), suit);
        } else {
            assert forall|i: int| 0 <= i < run.len() implies run[i].suit != suit by {
                assert(runs[runs.len() - 1]@[i].suit == runs[runs.len() - 1]@[0].suit);
            }
            lemma_suit_total_absent(run, suit);
        }
    }
}

/// Where the cards are ordered by suit and cut where the suit changes, the
/// best run scores what the best suit scores.
pub proof fn lemma_best_run_is_best_total(runs: Seq<Vec<Card>>)
    requires
        cut_by_suit(runs),
        suit_sorted(joined(runs)),
    ensures
        best_run(runs) == best_total(joined(runs)),
{
    lemma_best_run_below(runs);
    lemma_suit_total_below(runs, CardSuit::Spade);
    lemma_suit_total_below(runs, CardSuit::Heart);
    lemma_suit_total_below(runs, CardSuit::Diamond);
    lemma_suit_total_below(runs, CardSuit::Club);
}

/// What the cards score together.
fn sum_points(cards: &Vec<Card>) -> (sum: u32)
    requires
        11 * cards@.len() <= u32::MAX,
    ensures
        sum == total(cards@),
{
    let mut sum: u32 = 0;
    let mut i: usize = 0;
    while i < cards.len()
        invariant
            i <= cards@.len(),
            11 * cards@.len() <= u32::MAX,
            sum == total(cards@.take(i as int)),
            sum <= 11 * i,
        decreases cards@.len() - i,
    {
        assert(cards@.take(i + 1).drop_last() =~= cards@.take(i as int));
        sum = sum + cards[i].blitz_value();
        i += 1;
    }
    assert(cards@.take(i as int) =~= cards@);
    sum
}

impl Hand {
    /// What the hand scores: the best total of any one suit in it.
    pub open spec fn spec_value(&self) -> nat {
        best_total(self@)
    }

    /// A hand always holds three cards.
    pub proof fn lemma_three_cards(&self)
        ensures
            self@.len() == 3,
    {
    }

    /// Deals a hand from the top of `deck`: the top card goes to slot 0, the
    /// next to slot 1, the third to slot 2. A deck of fewer than three cards
    /// is drawn empty and gives no hand.
    pub fn deal(deck: &mut Deck) -> (dealt: Result<Hand, Error>)
        ensures
            old(deck)@.len() >= 3 ==> dealt.is_ok() && dealt.unwrap()@ == seq![
                old(deck)@[old(deck)@.len() - 1],
                old(deck)@[old(deck)@.len() - 2],
                old(deck)@[old(deck)@.len() - 3],
            ] && final(deck)@ == old(deck)@.take(old(deck)@.len() - 3),
            old(deck)@.len() < 3 ==> dealt == Err::<Hand, Error>(Error::NotEnoughCardsInDeck)
                && final(deck)@.len() == 0,
    {
        let mut taken: Vec<Card> = Vec::new();
        let mut n: usize = 0;
        while n < 3
            invariant
                n <= 3,
                taken@.len() <= n,
                taken@.len() < n ==> deck@.len() == 0,
                taken@.len() + deck@.len() == old(deck)@.len(),
                deck@ == old(deck)@.take(deck@.len() as int),
                forall|i: int|
                    0 <= i < taken@.len() ==> taken@[i] == old(deck)@[old(deck)@.len() - 1 - i],
            decreases 3 - n,
        {
            if let Some(card) = deck.next() {
                taken.push(card);
            }
            n += 1;
        }
        match collect_three(taken) {
            Some(triple) => {
                let hand = Hand { cards: [triple.0, triple.1, triple.2] };
                assert(hand@ =~= seq![
                    old(deck)@[old(deck)@.len() - 1],
                    old(deck)@[old(deck)@.len() - 2],
                    old(deck)@[old(deck)@.len() - 3],
                ]);
                Ok(hand)
            },
            None => Err(Error::NotEnoughCardsInDeck),
        }
    }

    /// Puts `card` into slot `index` and hands back the card that was there.
    /// A slot other than 0, 1 or 2 is refused, and the hand stays as it was.
    pub fn replace(&mut self, index: usize, card: Card) -> (displaced: Result<Card, Error>)
        ensures
            index < 3 ==> displaced == Ok::<Card, Error>(old(self)@[index as int]) && final(self)@
                == old(self)@.update(index as int, card),
            index >= 3 ==> displaced == Err::<Card, Error>(Error::InvalidHandIndex(index))
                && final(self)@ == old(self)@,
    {
        if index < 3 {
            let displaced = self.cards[index];
            self.cards[index] = card;
            Ok(displaced)
        } else {
            Err(Error::InvalidHandIndex(index))
        }
    }

    /// The three cards, by slot.
    pub fn cards(&self) -> (cards: [&Card; 3])
        ensures
            forall|i: int| 0 <= i < 3 ==> *cards@[i] == self@[i],
    {
        [&self.cards[0], &self.cards[1], &self.cards[2]]
    }

    /// What the hand scores: the cards are grouped by suit, each group is
    /// summed, and the best sum counts.
    pub fn value(&self) -> (value: u32)
        ensures
            value == self.spec_value(),
    {
        let mut cards: Vec<Card> = Vec::new();
        cards.push(self.cards[0]);
        cards.push(self.cards[1]);
        cards.push(self.cards[2]);
        assert(cards@ =~= self@);
        let sorted = sorted_by_suit(cards);
        let runs = grouped_by_suit(sorted);
        proof {
            lemma_arranged_by_suit(self@);
            lemma_best_run_is_best_total(runs@);
        }
        let mut best: u32 = 0;
        let mut k: usize = 0;
        while k < runs.len()
            invariant
                k <= runs@.len(),
                joined(runs@).len() == 3,
                best == best_run(runs@.take(k as int)),
            decreases runs@.len() - k,
        {
            proof {
                lemma_run_in_joined(runs@, k as int);
                assert(runs@.take(k + 1).drop_last() =~= runs@.take(k as int));
            }
            let sum = sum_points(&runs[k]);
            if sum > best {
                best = sum;
            }
            k += 1;
        }
        assert(runs@.take(k as int) =~= runs@);
        best
    }
}

} // verus!
