//! The rules of a round, as functions on plain values: who is next, who
//! loses a round, and what a round costs.

use vstd::prelude::*;

use crate::models::card::Card;
use crate::models::hand::best_total;
use crate::models::player::PlayerView;

verus! {

/// The lives that every player starts a game with.
pub const STARTING_LIVES: u8 = 4;

/// The most players that a game seats.
pub const MAX_PLAYERS: usize = 6;

/// The score that ends a round at once.
pub const BLITZ: u32 = 31;

/// What a player's hand scores; 0 without a hand.
pub open spec fn score(player: PlayerView) -> nat {
    match player.hand {
        Some(cards) => best_total(cards),
        None => 0,
    }
}

/// Whether the player holds a hand that scores 31.
pub open spec fn holds_blitz(player: PlayerView) -> bool {
    player.hand.is_some() && score(player) == 31
}

/// Whether any player holds a hand that scores 31.
pub open spec fn is_blitz(players: Seq<PlayerView>) -> bool {
    exists|i: int| 0 <= i < players.len() && holds_blitz(#[trigger] players[i])
}

/// The lowest score among the hands, if anyone holds a hand.
pub open spec fn lowest_hand(players: Seq<PlayerView>) -> Option<nat>
    decreases players.len(),
{
    if players.len() == 0 {
        None
    } else {
        let before = lowest_hand(players.drop_last());
        let last = players.last();
        if last.hand.is_none() {
            before
        } else if before.is_some() && before.unwrap() <= score(last) {
            before
        } else {
            Some(score(last))
        }
    }
}

/// The lowest score among the hands; 0 where nobody holds a hand.
pub open spec fn lowest_score(players: Seq<PlayerView>) -> nat {
    match lowest_hand(players) {
        Some(lowest) => lowest,
        None => 0,
    }
}

/// Whether the player in seat `i` loses the round. Only a player with a hand
/// can lose. When somebody holds 31, everyone who does not loses; otherwise
/// everyone with the lowest score loses.
pub open spec fn loses(players: Seq<PlayerView>, i: int) -> bool {
    &&& players[i].hand.is_some()
    &&& if is_blitz(players) {
        score(players[i]) != 31
    } else {
        score(players[i]) <= lowest_score(players)
    }
}

/// What losing the round costs the player in seat `i`: two lives for the
/// player who knocked, one for anybody else.
pub open spec fn penalty(knocked: Option<usize>, i: int) -> nat {
    if knocked.is_some() && knocked.unwrap() == i {
        2
    } else {
        1
    }
}

/// The lives of the player in seat `i` once the round is settled. They never
/// fall below 0.
pub open spec fn lives_after(players: Seq<PlayerView>, knocked: Option<usize>, i: int) -> nat {
    let lives = players[i].lives;
    if !loses(players, i) {
        lives
    } else if lives >= penalty(knocked, i) {
        (lives - penalty(knocked, i)) as nat
    } else {
        0
    }
}

/// The roster once the round is settled: the losers have paid, and nothing
/// else has changed.
pub open spec fn resolved(players: Seq<PlayerView>, knocked: Option<usize>) -> Seq<PlayerView> {
    Seq::new(
        players.len(),
        |i: int| PlayerView { lives: lives_after(players, knocked, i), ..players[i] },
    )
}

/// Whether the round puts the player in seat `i` out of the game.
pub open spec fn knocked_out(players: Seq<PlayerView>, knocked: Option<usize>, i: int) -> bool {
    loses(players, i) && lives_after(players, knocked, i) == 0
}

/// The players among the first `n` seats whom the round puts out of the
/// game, by seat, as they stand once the round is settled.
pub open spec fn eliminated(players: Seq<PlayerView>, knocked: Option<usize>, n: int) -> Seq<
    PlayerView,
>
    decreases n,
{
    if n <= 0 {
        Seq::empty()
    } else {
        let before = eliminated(players, knocked, n - 1);
        if knocked_out(players, knocked, n - 1) {
            before.push(resolved(players, knocked)[n - 1])
        } else {
            before
        }
    }
}

/// How many players have a life left.
pub open spec fn alive_count(players: Seq<PlayerView>) -> nat
    decreases players.len(),
{
    if players.len() == 0 {
        0
    } else {
        alive_count(players.drop_last()) + if players.last().lives > 0 {
            1nat
        } else {
            0nat
        }
    }
}

/// The first seat whose player has a life left; the number of seats where
/// nobody has.
pub open spec fn first_alive(players: Seq<PlayerView>) -> int
    decreases players.len(),
{
    if players.len() == 0 {
        0
    } else {
        let before = first_alive(players.drop_last());
        if before < players.len() - 1 || players.last().lives > 0 {
            before
        } else {
            players.len() as int
        }
    }
}

/// The seat that opens a round: the first whose player has a life left, and
/// seat 0 where nobody has.
pub open spec fn opening_seat(players: Seq<PlayerView>) -> int {
    if first_alive(players) < players.len() {
        first_alive(players)
    } else {
        0
    }
}

/// How many players hold a hand.
pub open spec fn hands_held(players: Seq<PlayerView>) -> nat
    decreases players.len(),
{
    if players.len() == 0 {
        0
    } else {
        hands_held(players.drop_last()) + if players.last().hand.is_some() {
            1nat
        } else {
            0nat
        }
    }
}

/// The seat `steps` places after `turn`, going round the table.
pub open spec fn seat_after(players: Seq<PlayerView>, turn: int, steps: int) -> int {
    (turn + steps) % (players.len() as int)
}

/// The number of places from `turn` to the next player with a life left,
/// counting from `steps` places on; the number of seats where the search
/// comes round without finding one.
pub open spec fn steps_to_alive(players: Seq<PlayerView>, turn: int, steps: int) -> int
    decreases players.len() - steps,
{
    if steps >= players.len() {
        players.len() as int
    } else if players[seat_after(players, turn, steps)].lives > 0 {
        steps
    } else {
        steps_to_alive(players, turn, steps + 1)
    }
}

/// The seat whose turn it is after `turn`: the next one round the table
/// whose player has a life left. Where no other player has, the turn stays.
pub open spec fn next_seat(players: Seq<PlayerView>, turn: int) -> int {
    if players.len() == 0 {
        turn
    } else {
        seat_after(players, turn, steps_to_alive(players, turn, 1))
    }
}

/// The roster with every player back at four lives.
pub open spec fn revived(players: Seq<PlayerView>) -> Seq<PlayerView> {
    Seq::new(players.len(), |i: int| PlayerView { lives: 4, ..players[i] })
}

/// The roster with every player back at four lives and without a hand.
pub open spec fn cleared(players: Seq<PlayerView>) -> Seq<PlayerView> {
    Seq::new(players.len(), |i: int| PlayerView { lives: 4, hand: None, ..players[i] })
}

/// The hand that the top three cards of `deck` make: the top card in slot 0.
pub open spec fn top_three(deck: Seq<Card>) -> Seq<Card> {
    seq![deck[deck.len() - 1], deck[deck.len() - 2], deck[deck.len() - 3]]
}

/// The roster and the deck after a deal: seat by seat, each player with a
/// life left gets the top three cards of what is left of the deck, and each
/// player without one is left without a hand.
pub open spec fn deal_hands(players: Seq<PlayerView>, deck: Seq<Card>) -> (
    Seq<PlayerView>,
    Seq<Card>,
)
    decreases players.len(),
{
    if players.len() == 0 {
        (players, deck)
    } else {
        let (before, rest) = deal_hands(players.drop_last(), deck);
        let last = players.last();
        if last.lives > 0 {
            (
                before.push(PlayerView { hand: Some(top_three(rest)), ..last }),
                rest.take(rest.len() - 3),
            )
        } else {
            (before.push(PlayerView { hand: None, ..last }), rest)
        }
    }
}

/// The seat of the player called `id`: the last one, where several players
/// share the name; none where nobody has it.
pub open spec fn seat_of(players: Seq<PlayerView>, id: Seq<char>) -> Option<int>
    decreases players.len(),
{
    if players.len() == 0 {
        None
    } else if players.last().id == id {
        Some(players.len() - 1)
    } else {
        seat_of(players.drop_last(), id)
    }
}

/// No more players are alive, and no more hold a hand, than there are seats.
pub proof fn lemma_counts_bounded(players: Seq<PlayerView>)
    ensures
        alive_count(players) <= players.len(),
        hands_held(players) <= players.len(),
    decreases players.len(),
{
    if players.len() > 0 {
        lemma_counts_bounded(players.drop_last());
    }
}

/// Where every player has a life left, all of them count as alive, and
/// where none has, none does.
pub proof fn lemma_alive_count_uniform(players: Seq<PlayerView>)
    ensures
        (forall|i: int| 0 <= i < players.len() ==> (#[trigger] players[i]).lives > 0)
            ==> alive_count(players) == players.len(),
        (forall|i: int| 0 <= i < players.len() ==> (#[trigger] players[i]).lives == 0)
            <==> alive_count(players) == 0,
    decreases players.len(),
{
    if players.len() > 0 {
        let before = players.drop_last();
        lemma_alive_count_uniform(before);
        assert(forall|i: int| 0 <= i < before.len() ==> before[i] == players[i]);
        if alive_count(players) == 0 {
            assert forall|i: int| 0 <= i < players.len() implies (#[trigger] players[i]).lives
                == 0 by {
                if i < before.len() {
                    assert(before[i].lives == 0);
                }
            }
        }
    }
}

/// The seat `seat` is the first with a life left where it has one and no
/// seat before it has; the number of seats stands for "nobody".
pub proof fn lemma_first_alive_is(players: Seq<PlayerView>, seat: int)
    requires
        0 <= seat <= players.len(),
        forall|i: int| 0 <= i < seat ==> (#[trigger] players[i]).lives == 0,
        seat < players.len() ==> players[seat].lives > 0,
    ensures
        first_alive(players) == seat,
    decreases players.len(),
{
    if players.len() > 0 {
        let before = players.drop_last();
        assert(forall|i: int| 0 <= i < before.len() ==> before[i] == players[i]);
        if seat < players.len() - 1 {
            lemma_first_alive_is(before, seat);
        } else {
            lemma_first_alive_is(before, players.len() - 1);
        }
    }
}

/// The first seat with a life left has one, and no seat before it has.
pub proof fn lemma_first_alive(players: Seq<PlayerView>)
    ensures
        0 <= first_alive(players) <= players.len(),
        forall|i: int| 0 <= i < first_alive(players) ==> (#[trigger] players[i]).lives == 0,
        first_alive(players) < players.len() ==> players[first_alive(players)].lives > 0,
        alive_count(players) > 0 <==> first_alive(players) < players.len(),
    decreases players.len(),
{
    if players.len() > 0 {
        let before = players.drop_last();
        assert(forall|i: int| 0 <= i < before.len() ==> before[i] == players[i]);
        lemma_first_alive(before);
    }
}

/// Two rosters whose players have the same lives, seat by seat, have as
/// many players alive, the same first seat alive, and pass the turn alike.
pub proof fn lemma_same_lives(a: Seq<PlayerView>, b: Seq<PlayerView>)
    requires
        a.len() == b.len(),
        forall|i: int| 0 <= i < a.len() ==> (#[trigger] a[i]).lives == b[i].lives,
    ensures
        alive_count(a) == alive_count(b),
        first_alive(a) == first_alive(b),
        opening_seat(a) == opening_seat(b),
    decreases a.len(),
{
    if a.len() > 0 {
        assert(forall|i: int| 0 <= i < a.len() - 1 ==> a.drop_last()[i] == a[i]);
        assert(forall|i: int| 0 <= i < b.len() - 1 ==> b.drop_last()[i] == b[i]);
        lemma_same_lives(a.drop_last(), b.drop_last());
    }
}

/// What a deal does: every player keeps name and lives; exactly the players
/// with a life left get a hand, of three cards; and the deck loses three
/// cards from its top for each of them.
pub proof fn lemma_deal_hands(players: Seq<PlayerView>, deck: Seq<Card>)
    requires
        deck.len() >= 3 * players.len(),
    ensures
        ({
            let (seated, rest) = deal_hands(players, deck);
            &&& seated.len() == players.len()
            &&& forall|i: int|
                0 <= i < players.len() ==> {
                    &&& (#[trigger] seated[i]).id == players[i].id
                    &&& seated[i].name == players[i].name
                    &&& seated[i].lives == players[i].lives
                    &&& seated[i].hand.is_some() <==> players[i].lives > 0
                    &&& seated[i].hand.is_some() ==> seated[i].hand.unwrap().len() == 3
                }
            &&& hands_held(seated) == alive_count(players)
            &&& rest.len() + 3 * alive_count(players) == deck.len()
            &&& rest == deck.take(rest.len() as int)
        }),
    decreases players.len(),
{
    if players.len() > 0 {
        let before = players.drop_last();
        lemma_deal_hands(before, deck);
        lemma_counts_bounded(before);
        let (seated, rest) = deal_hands(players, deck);
        let (seated_before, rest_before) = deal_hands(before, deck);
        assert(seated.drop_last() =~= seated_before);
        assert(rest =~= deck.take(rest.len() as int));
        assert forall|i: int| 0 <= i < players.len() implies {
            &&& (#[trigger] seated[i]).id == players[i].id
            &&& seated[i].name == players[i].name
            &&& seated[i].lives == players[i].lives
            &&& seated[i].hand.is_some() <==> players[i].lives > 0
            &&& seated[i].hand.is_some() ==> seated[i].hand.unwrap().len() == 3
        } by {
            if i < before.len() {
                assert(seated[i] == seated_before[i]);
                assert(before[i] == players[i]);
            }
        }
    } else {
        assert(deck =~= deck.take(deck.len() as int));
    }
}

/// Going round the table stays at the table, and one place further is the
/// next seat round.
pub proof fn lemma_seat_after(players: Seq<PlayerView>, turn: int, steps: int)
    requires
        players.len() > 0,
        0 <= turn,
        0 <= steps,
    ensures
        0 <= seat_after(players, turn, steps) < players.len(),
        seat_after(players, turn, steps + 1) == (seat_after(players, turn, steps) + 1) % (
        players.len() as int),
        turn < players.len() ==> seat_after(players, turn, players.len() as int) == turn,
        turn < players.len() ==> seat_after(players, turn, 0) == turn,
{
    let n = players.len() as int;
    vstd::arithmetic::div_mod::lemma_mod_pos_bound(turn + steps, n);
    vstd::arithmetic::div_mod::lemma_add_mod_noop_right(1, turn + steps, n);
    if turn < n {
        vstd::arithmetic::div_mod::lemma_mod_add_multiples_vanish(turn, n);
        vstd::arithmetic::div_mod::lemma_small_mod(turn as nat, n as nat);
    }
}

/// The search for the next player with a life left finds one, or comes
/// round; it passes over nobody who has a life left.
pub proof fn lemma_steps_to_alive(players: Seq<PlayerView>, turn: int, from: int)
    requires
        players.len() > 0,
        0 <= turn,
        0 <= from <= players.len(),
    ensures
        from <= steps_to_alive(players, turn, from) <= players.len(),
        steps_to_alive(players, turn, from) < players.len() ==> players[seat_after(
            players,
            turn,
            steps_to_alive(players, turn, from),
        )].lives > 0,
        forall|d: int|
            from <= d < steps_to_alive(players, turn, from) ==> players[#[trigger] seat_after(
                players,
                turn,
                d,
            )].lives == 0,
    decreases players.len() - from,
{
    lemma_seat_after(players, turn, from);
    if from < players.len() && players[seat_after(players, turn, from)].lives == 0 {
        lemma_steps_to_alive(players, turn, from + 1);
    }
}

/// The turn passes to a seat at the table; to a player with a life left,
/// where the player whose turn it was has one; and over nobody who has.
pub proof fn lemma_next_seat(players: Seq<PlayerView>, turn: int)
    requires
        0 <= turn < players.len(),
    ensures
        0 <= next_seat(players, turn) < players.len(),
        players[turn].lives > 0 ==> players[next_seat(players, turn)].lives > 0,
        1 <= steps_to_alive(players, turn, 1) <= players.len(),
        forall|d: int|
            1 <= d < steps_to_alive(players, turn, 1) ==> players[#[trigger] seat_after(
                players,
                turn,
                d,
            )].lives == 0,
{
    lemma_steps_to_alive(players, turn, 1);
    lemma_seat_after(players, turn, steps_to_alive(players, turn, 1));
}

/// A player who holds a hand scores no less than the lowest score, and
/// where anybody holds a hand, somebody scores the lowest.
pub proof fn lemma_lowest_score(players: Seq<PlayerView>)
    ensures
        forall|i: int|
            0 <= i < players.len() && (#[trigger] players[i]).hand.is_some() ==> lowest_hand(
                players,
            ).is_some() && lowest_score(players) <= score(players[i]),
        lowest_hand(players).is_some() ==> exists|i: int|
            0 <= i < players.len() && (#[trigger] players[i]).hand.is_some() && score(players[i])
                == lowest_score(players),
    decreases players.len(),
{
    if players.len() > 0 {
        let before = players.drop_last();
        lemma_lowest_score(before);
        assert forall|i: int|
            0 <= i < players.len() && (#[trigger] players[i]).hand.is_some() implies lowest_hand(
            players,
        ).is_some() && lowest_score(players) <= score(players[i]) by {
            if i < before.len() {
                assert(before[i] == players[i]);
            }
        }
        if lowest_hand(players).is_some() {
            if players.last().hand.is_some() && score(players.last()) == lowest_score(players) {
                assert(players[players.len() - 1].hand.is_some());
            } else {
                let i = choose|i: int|
                    0 <= i < before.len() && (#[trigger] before[i]).hand.is_some() && score(
                        before[i],
                    ) == lowest_score(before);
                assert(before[i] == players[i]);
            }
        }
    }
}

/// Two rosters whose players hold the same hands, seat by seat, have as
/// many players with a hand.
pub proof fn lemma_same_hands(a: Seq<PlayerView>, b: Seq<PlayerView>)
    requires
        a.len() == b.len(),
        forall|i: int| 0 <= i < a.len() ==> (#[trigger] a[i]).hand.is_some() == b[i].hand.is_some(),
    ensures
        hands_held(a) == hands_held(b),
    decreases a.len(),
{
    if a.len() > 0 {
        assert(forall|i: int| 0 <= i < a.len() - 1 ==> a.drop_last()[i] == a[i]);
        assert(forall|i: int| 0 <= i < b.len() - 1 ==> b.drop_last()[i] == b[i]);
        lemma_same_hands(a.drop_last(), b.drop_last());
    }
}

} // verus!
