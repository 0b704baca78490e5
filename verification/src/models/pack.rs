//! The cards in play: no card is lost and none is made. A game that is
//! played with the 52 cards of a pack holds each of them once, in the deck,
//! on the discard pile or in a hand, and so no hand scores more than 31.

use vstd::multiset::Multiset;
use vstd::prelude::*;

use crate::models::card::Card;
use crate::models::deck::{full_pack, lemma_pack_distinct, same_cards};
use crate::models::game::{
    advance, dealt, played, resolve, restarted, restocked, round_started, swapped, valid,
    GameView, Phase, Turn,
};
use crate::models::hand::{best_total, suit_total};
use crate::models::player::PlayerView;
use crate::models::rules::{deal_hands, lemma_deal_hands, resolved, top_three};

verus! {

/// The cards that a player holds.
pub open spec fn hand_cards(player: PlayerView) -> Multiset<Card> {
    match player.hand {
        Some(cards) => cards.to_multiset(),
        None => Multiset::empty(),
    }
}

/// The cards that the players hold between them.
pub open spec fn held(players: Seq<PlayerView>) -> Multiset<Card>
    decreases players.len(),
{
    if players.len() == 0 {
        Multiset::empty()
    } else {
        held(players.drop_last()).add(hand_cards(players.last()))
    }
}

/// All the cards of a game: the deck, the discard pile and the hands.
pub open spec fn cards_in(game: GameView) -> Multiset<Card> {
    game.deck.to_multiset().add(game.discard.to_multiset()).add(held(game.players))
}

/// Whether the game is played with the 52 cards of a pack: while it waits,
/// they are its deck; from the first deal on, they are spread over the deck,
/// the discard pile and the hands.
pub open spec fn whole(game: GameView) -> bool {
    if game.state is Waiting {
        same_cards(game.deck, full_pack())
    } else {
        cards_in(game) =~= full_pack().to_multiset()
    }
}

/// A pile without cards holds no card.
proof fn lemma_no_cards()
    ensures
        Seq::<Card>::empty().to_multiset() =~= Multiset::<Card>::empty(),
{
    vstd::seq_lib::to_multiset_len(Seq::<Card>::empty());
    vstd::multiset::lemma_multiset_empty_len(Seq::<Card>::empty().to_multiset());
}

/// A pile is its top card and the pile below it.
proof fn lemma_top_card(pile: Seq<Card>)
    requires
        pile.len() > 0,
    ensures
        pile.to_multiset() =~= pile.drop_last().to_multiset().insert(pile.last()),
{
    assert(pile =~= pile.drop_last().push(pile.last()));
    vstd::seq_lib::to_multiset_build(pile.drop_last(), pile.last());
}

/// The three cards of a sequence of three, whatever their order.
proof fn lemma_three_cards(cards: Seq<Card>)
    requires
        cards.len() == 3,
    ensures
        cards.to_multiset() =~= Multiset::empty().insert(cards[0]).insert(cards[1]).insert(
            cards[2],
        ),
{
    broadcast use vstd::multiset::group_multiset_axioms;

    lemma_top_card(cards);
    lemma_top_card(cards.drop_last());
    lemma_top_card(cards.drop_last().drop_last());
    assert(cards.drop_last().drop_last().drop_last() =~= Seq::<Card>::empty());
    lemma_no_cards();
}

/// A deck is the hand dealt from its top and what is left of it.
proof fn lemma_deal_from_top(deck: Seq<Card>)
    requires
        deck.len() >= 3,
    ensures
        deck.to_multiset() =~= deck.take(deck.len() - 3).to_multiset().add(
            top_three(deck).to_multiset(),
        ),
{
    broadcast use vstd::multiset::group_multiset_axioms;

    let two = deck.drop_last();
    let one = two.drop_last();
    lemma_top_card(deck);
    lemma_top_card(two);
    lemma_top_card(one);
    assert(one.drop_last() =~= deck.take(deck.len() - 3));
    lemma_three_cards(top_three(deck));
}

/// Rosters whose players hold the same hands hold the same cards.
pub proof fn lemma_held_same(a: Seq<PlayerView>, b: Seq<PlayerView>)
    requires
        a.len() == b.len(),
        forall|i: int| 0 <= i < a.len() ==> (#[trigger] a[i]).hand == b[i].hand,
    ensures
        held(a) == held(b),
    decreases a.len(),
{
    if a.len() > 0 {
        assert(forall|i: int| 0 <= i < a.len() - 1 ==> a.drop_last()[i] == a[i]);
        assert(forall|i: int| 0 <= i < b.len() - 1 ==> b.drop_last()[i] == b[i]);
        lemma_held_same(a.drop_last(), b.drop_last());
    }
}

/// What a player holds is among what the players hold between them.
pub proof fn lemma_held_includes(players: Seq<PlayerView>, seat: int, card: Card)
    requires
        0 <= seat < players.len(),
    ensures
        hand_cards(players[seat]).count(card) <= held(players).count(card),
    decreases players.len(),
{
    broadcast use vstd::multiset::group_multiset_axioms;

    if seat < players.len() - 1 {
        lemma_held_includes(players.drop_last(), seat, card);
    }
}

/// When one player's hand changes, what the players hold between them
/// changes by that hand.
proof fn lemma_held_update(players: Seq<PlayerView>, seat: int, player: PlayerView)
    requires
        0 <= seat < players.len(),
    ensures
        held(players.update(seat, player)).add(hand_cards(players[seat])) =~= held(players).add(
            hand_cards(player),
        ),
    decreases players.len(),
{
    broadcast use vstd::multiset::group_multiset_axioms;

    let after = players.update(seat, player);
    let before = players.drop_last();
    if seat < players.len() - 1 {
        assert(after.drop_last() =~= before.update(seat, player));
        assert(after.last() == players.last());
        assert(before[seat] == players[seat]);
        lemma_held_update(before, seat, player);
        let left = held(before.update(seat, player)).add(hand_cards(players[seat]));
        let right = held(before).add(hand_cards(player));
        assert forall|card: Card|
            held(after).add(hand_cards(players[seat])).count(card) == held(players).add(
                hand_cards(player),
            ).count(card) by {
            assert(left.count(card) == right.count(card));
        }
    } else {
        assert(after.drop_last() =~= before);
        assert(after.last() == player);
    }
}

/// A deal moves cards from the deck into hands, and loses none: what is
/// left of the deck and what the players then hold is the deck.
pub proof fn lemma_deal_keeps_cards(players: Seq<PlayerView>, deck: Seq<Card>)
    requires
        deck.len() >= 3 * players.len(),
    ensures
        ({
            let (seated, rest) = deal_hands(players, deck);
            rest.to_multiset().add(held(seated)) =~= deck.to_multiset()
        }),
    decreases players.len(),
{
    broadcast use vstd::multiset::group_multiset_axioms;

    if players.len() > 0 {
        let before = players.drop_last();
        let (seated_before, rest_before) = deal_hands(before, deck);
        let (seated, rest) = deal_hands(players, deck);
        lemma_deal_keeps_cards(before, deck);
        lemma_deal_hands(before, deck);
        crate::models::rules::lemma_counts_bounded(before);
        assert(seated.drop_last() =~= seated_before);
        if players.last().lives > 0 {
            lemma_deal_from_top(rest_before);
        }
    }
}

/// A round that is dealt holds the cards of the deck and of the discard
/// pile that it was dealt from.
pub proof fn lemma_dealt_keeps_cards(
    game: GameView,
    players: Seq<PlayerView>,
    deck: Seq<Card>,
    discard: Seq<Card>,
)
    requires
        deck.len() > 3 * players.len(),
    ensures
        cards_in(dealt(game, players, deck, discard)) =~= deck.to_multiset().add(
            discard.to_multiset(),
        ),
{
    broadcast use vstd::multiset::group_multiset_axioms;

    let (seated, rest) = deal_hands(players, deck);
    lemma_deal_keeps_cards(players, deck);
    lemma_deal_hands(players, deck);
    crate::models::rules::lemma_counts_bounded(players);
    lemma_top_card(rest);
    vstd::seq_lib::to_multiset_build(discard, rest.last());
}

/// The next round is played with the 52 cards of a pack, where the game
/// was and the newly shuffled deck is a pack.
pub proof fn lemma_round_started_whole(game: GameView, fresh: Seq<Card>)
    requires
        valid(game),
        whole(game),
        same_cards(fresh, full_pack()),
    ensures
        whole(round_started(game, fresh).0),
{
    broadcast use vstd::multiset::group_multiset_axioms;

    vstd::seq_lib::to_multiset_len(fresh);
    vstd::seq_lib::to_multiset_len(full_pack());
    vstd::seq_lib::to_multiset_len(game.deck);
    lemma_no_cards();
    match game.state {
        Phase::Waiting => {
            assert(game.discard =~= Seq::<Card>::empty());
            lemma_dealt_keeps_cards(
                game,
                crate::models::rules::revived(game.players),
                game.deck,
                game.discard,
            );
        },
        Phase::RoundEnded { eliminated } => {
            lemma_dealt_keeps_cards(game, game.players, fresh, Seq::empty());
        },
        _ => {},
    }
}

/// A game that is put back at the start with a pack as its deck is played
/// with the 52 cards of a pack.
pub proof fn lemma_restarted_whole(game: GameView, fresh: Seq<Card>)
    requires
        same_cards(fresh, full_pack()),
    ensures
        whole(restarted(game, fresh)),
{
}

/// Settling a round moves no card.
pub proof fn lemma_resolve_keeps_cards(game: GameView, knocked: Option<usize>)
    ensures
        cards_in(resolve(game, knocked).0) == cards_in(game),
{
    lemma_held_same(resolved(game.players, knocked), game.players);
}

/// Passing the turn on moves no card.
pub proof fn lemma_advance_keeps_cards(game: GameView, turn: usize, knocked: Option<usize>)
    ensures
        cards_in(advance(game, turn, knocked).0) == cards_in(game),
{
    lemma_resolve_keeps_cards(game, knocked);
}

/// A turn moves cards between the deck, the discard pile and the hand of
/// the player whose turn it is, and neither loses a card nor makes one.
pub proof fn lemma_played_keeps_cards(game: GameView, action: Turn, shuffled: Seq<Card>)
    requires
        valid(game),
        same_cards(shuffled, game.discard),
    ensures
        cards_in(played(game, action, shuffled).0) =~= cards_in(game),
{
    broadcast use vstd::multiset::group_multiset_axioms;

    if let Phase::Started { turn, knocked } = game.state {
        if turn < game.players.len() && game.players[turn as int].lives > 0 {
            crate::models::rules::lemma_counts_bounded(game.players);
            match action {
                Turn::Draw { index } => {
                    let stocked = if game.deck.len() == 0 {
                        restocked(game, shuffled)
                    } else {
                        game
                    };
                    if game.deck.len() == 0 {
                        vstd::seq_lib::to_multiset_len(shuffled);
                        vstd::seq_lib::to_multiset_len(game.discard);
                        lemma_top_card(shuffled);
                        lemma_one_card(shuffled.last());
                        assert(game.deck =~= Seq::<Card>::empty());
                        lemma_no_cards();
                    }
                    assert(cards_in(stocked) =~= cards_in(game));
                    if index < 3 {
                        lemma_top_card(stocked.deck);
                        lemma_swapped_keeps_cards(
                            stocked,
                            turn,
                            knocked,
                            index,
                            stocked.deck.last(),
                            stocked.deck.drop_last(),
                            stocked.discard,
                        );
                    }
                },
                Turn::DrawDiscard { index } => {
                    if index < 3 {
                        lemma_top_card(game.discard);
                        lemma_swapped_keeps_cards(
                            game,
                            turn,
                            knocked,
                            index,
                            game.discard.last(),
                            game.deck,
                            game.discard.drop_last(),
                        );
                    }
                },
                Turn::Knock => {
                    lemma_advance_keeps_cards(game, turn, Some(turn));
                },
            }
        }
    }
}

/// A pile of one card holds that card.
proof fn lemma_one_card(card: Card)
    ensures
        seq![card].to_multiset() =~= Multiset::empty().insert(card),
{
    broadcast use vstd::multiset::group_multiset_axioms;

    lemma_top_card(seq![card]);
    assert(seq![card].drop_last() =~= Seq::<Card>::empty());
    lemma_no_cards();
}

/// A swap puts the card taken into the hand and the card that lay there
/// onto the discard pile.
proof fn lemma_swapped_keeps_cards(
    game: GameView,
    turn: usize,
    knocked: Option<usize>,
    index: usize,
    card: Card,
    deck: Seq<Card>,
    discard: Seq<Card>,
)
    requires
        turn < game.players.len(),
        index < 3,
        game.players[turn as int].hand.is_some(),
        game.players[turn as int].hand.unwrap().len() == 3,
    ensures
        cards_in(swapped(game, turn, knocked, index, card, deck, discard).0) =~= deck.to_multiset().add(
            discard.to_multiset(),
        ).add(held(game.players)).insert(card),
{
    broadcast use vstd::multiset::group_multiset_axioms;

    let player = game.players[turn as int];
    let hand = player.hand.unwrap();
    let holding = PlayerView { hand: Some(hand.update(index as int, card)), ..player };
    let next = GameView {
        players: game.players.update(turn as int, holding),
        deck,
        discard: discard.push(hand[index as int]),
        ..game
    };
    let displaced = hand[index as int];
    lemma_held_update(game.players, turn as int, holding);
    vstd::seq_lib::to_multiset_update(hand, index as int, card);
    vstd::seq_lib::to_multiset_build(discard, displaced);
    vstd::seq_lib::to_multiset_contains(hand, displaced);
    assert(hand.contains(displaced));
    lemma_resolve_keeps_cards(next, knocked);
    lemma_advance_keeps_cards(next, turn, knocked);
    let left = held(next.players).add(hand_cards(player));
    let right = held(game.players).add(hand_cards(holding));
    let goal = deck.to_multiset().add(discard.to_multiset()).add(held(game.players)).insert(card);
    assert forall|any: Card| cards_in(next).count(any) == goal.count(any) by {
        assert(left.count(any) == right.count(any));
        assert(hand_cards(holding) == hand.to_multiset().insert(card).remove(displaced));
        assert(hand.to_multiset().insert(card).count(displaced) >= 1);
    }
    assert(cards_in(next) =~= goal);
}

/// A turn leaves a game that is played with the 52 cards of a pack as one.
pub proof fn lemma_played_whole(game: GameView, action: Turn, shuffled: Seq<Card>)
    requires
        valid(game),
        whole(game),
        same_cards(shuffled, game.discard),
    ensures
        whole(played(game, action, shuffled).0),
{
    lemma_played_keeps_cards(game, action, shuffled);
}

/// Every card is in a pack exactly once.
pub proof fn lemma_pack_holds_each_once(card: Card)
    ensures
        full_pack().to_multiset().count(card) == 1,
{
    let pack = full_pack();
    assert(pack.no_duplicates()) by {
        assert forall|i: int, j: int| 0 <= i < pack.len() && 0 <= j < pack.len() && i != j implies pack[i]
            != pack[j] by {
            lemma_pack_distinct(i, j);
        }
    }
    pack.lemma_multiset_has_no_duplicates();
    crate::models::deck::lemma_pack_complete(card);
    vstd::seq_lib::to_multiset_contains(pack, card);
    assert(pack.contains(card)) by {
        assert(pack[crate::models::deck::pack_position(card)] == card);
    }
}

/// Three different cards score 31 at most: a suit has one ace.
pub proof fn lemma_best_of_three(cards: Seq<Card>)
    requires
        cards.len() == 3,
        cards[0] != cards[1],
        cards[0] != cards[2],
        cards[1] != cards[2],
    ensures
        best_total(cards) <= 31,
{
    reveal_with_fuel(suit_total, 4);
    let two = cards.drop_last();
    let one = two.drop_last();
    assert(two.last() == cards[1]);
    assert(one.last() == cards[0]);
    assert(one.drop_last().len() == 0);
}

/// In a game that is played with the 52 cards of a pack, no hand scores
/// more than 31.
pub proof fn lemma_no_hand_above_31(game: GameView, seat: int)
    requires
        valid(game),
        whole(game),
        !(game.state is Waiting),
        0 <= seat < game.players.len(),
        game.players[seat].hand.is_some(),
    ensures
        best_total(game.players[seat].hand.unwrap()) <= 31,
{
    broadcast use vstd::multiset::group_multiset_axioms;

    let cards = game.players[seat].hand.unwrap();
    lemma_three_cards(cards);
    assert forall|card: Card| cards.to_multiset().count(card) <= 1 by {
        lemma_held_includes(game.players, seat, card);
        lemma_pack_holds_each_once(card);
    }
    assert(cards.to_multiset().count(cards[0]) <= 1);
    assert(cards.to_multiset().count(cards[1]) <= 1);
    assert(cards.to_multiset().count(cards[2]) <= 1);
    lemma_best_of_three(cards);
}

} // verus!
