//! The order of turns round the table, and what a knock does to it: after a
//! knock every other player with a life left plays once more, in the order
//! of the seats, and then the round is settled.

use vstd::prelude::*;

use crate::models::player::PlayerView;
use crate::models::rules::{
    alive_count, lemma_steps_to_alive, next_seat, seat_after, steps_to_alive,
};

verus! {

/// How many of the seats from `lo` up to, but not including, `hi` hold a
/// player with a life left.
pub open spec fn alive_between(players: Seq<PlayerView>, lo: int, hi: int) -> nat
    decreases hi - lo,
{
    if lo >= hi {
        0
    } else {
        alive_between(players, lo, hi - 1) + if players[hi - 1].lives > 0 {
            1nat
        } else {
            0nat
        }
    }
}

/// How many of the seats that lie `lo` places after `from`, and further
/// round the table up to, but not including, `hi` places after it, hold a
/// player with a life left.
pub open spec fn alive_along(players: Seq<PlayerView>, from: int, lo: int, hi: int) -> nat
    decreases hi - lo,
{
    if lo >= hi {
        0
    } else {
        alive_along(players, from, lo, hi - 1) + if players[seat_after(players, from, hi - 1)].lives
            > 0 {
            1nat
        } else {
            0nat
        }
    }
}

/// The number of places from seat `from` round the table to seat `to`.
pub open spec fn places_to(players: Seq<PlayerView>, from: int, to: int) -> int {
    (to - from) % (players.len() as int)
}

/// How many players have a turn to come before the round is settled, once
/// the player in seat `knocker` has knocked and it is the turn of the player
/// in seat `turn`: the players with a life left from `turn` round the table
/// to the seat before `knocker`.
pub open spec fn turns_to_come(players: Seq<PlayerView>, knocker: int, turn: int) -> nat {
    alive_along(players, turn, 0, places_to(players, turn, knocker))
}

/// A number that lies off the range of `n` seats by less than `n` comes
/// back into it by one round of the table.
pub proof fn lemma_wrap(x: int, n: int)
    requires
        n > 0,
        -n <= x < 2 * n,
    ensures
        x % n == if x < 0 {
            x + n
        } else if x < n {
            x
        } else {
            x - n
        },
{
    if x < 0 {
        vstd::arithmetic::div_mod::lemma_mod_add_multiples_vanish(x, n);
        vstd::arithmetic::div_mod::lemma_small_mod((x + n) as nat, n as nat);
    } else if x < n {
        vstd::arithmetic::div_mod::lemma_small_mod(x as nat, n as nat);
    } else {
        vstd::arithmetic::div_mod::lemma_mod_add_multiples_vanish(x - n, n);
        vstd::arithmetic::div_mod::lemma_small_mod((x - n) as nat, n as nat);
    }
}

/// The count over a stretch of seats is the sum of the counts over its two
/// parts.
pub proof fn lemma_alive_between_split(players: Seq<PlayerView>, lo: int, mid: int, hi: int)
    requires
        lo <= mid <= hi,
    ensures
        alive_between(players, lo, hi) == alive_between(players, lo, mid) + alive_between(
            players,
            mid,
            hi,
        ),
    decreases hi - mid,
{
    if mid < hi {
        lemma_alive_between_split(players, lo, mid, hi - 1);
    }
}

/// Counted seat by seat from the first, the players with a life left are as
/// many as the roster counts.
pub proof fn lemma_alive_between_all(players: Seq<PlayerView>)
    ensures
        alive_between(players, 0, players.len() as int) == alive_count(players),
    decreases players.len(),
{
    if players.len() > 0 {
        let before = players.drop_last();
        lemma_alive_between_all(before);
        lemma_alive_between_same(before, players, 0, before.len() as int);
    }
}

proof fn lemma_alive_between_same(a: Seq<PlayerView>, b: Seq<PlayerView>, lo: int, hi: int)
    requires
        0 <= lo,
        hi <= a.len(),
        hi <= b.len(),
        forall|i: int| lo <= i < hi ==> (#[trigger] a[i]).lives == b[i].lives,
    ensures
        alive_between(a, lo, hi) == alive_between(b, lo, hi),
    decreases hi - lo,
{
    if lo < hi {
        lemma_alive_between_same(a, b, lo, hi - 1);
    }
}

/// The count along a stretch of the way round is the sum of the counts
/// along its two parts.
pub proof fn lemma_alive_along_split(
    players: Seq<PlayerView>,
    from: int,
    lo: int,
    mid: int,
    hi: int,
)
    requires
        lo <= mid <= hi,
    ensures
        alive_along(players, from, lo, hi) == alive_along(players, from, lo, mid) + alive_along(
            players,
            from,
            mid,
            hi,
        ),
    decreases hi - mid,
{
    if mid < hi {
        lemma_alive_along_split(players, from, lo, mid, hi - 1);
    }
}

/// Along a stretch on which nobody has a life left, the count is 0.
pub proof fn lemma_alive_along_none(players: Seq<PlayerView>, from: int, lo: int, hi: int)
    requires
        forall|d: int| lo <= d < hi ==> players[#[trigger] seat_after(players, from, d)].lives == 0,
    ensures
        alive_along(players, from, lo, hi) == 0,
    decreases hi - lo,
{
    if lo < hi {
        lemma_alive_along_none(players, from, lo, hi - 1);
    }
}

/// A stretch of the way round that does not pass the last seat is a stretch
/// of seats.
proof fn lemma_alive_along_straight(players: Seq<PlayerView>, from: int, lo: int, hi: int)
    requires
        0 <= from,
        0 <= lo <= hi,
        from + hi <= players.len(),
    ensures
        alive_along(players, from, lo, hi) == alive_between(players, from + lo, from + hi),
    decreases hi - lo,
{
    if lo < hi {
        lemma_alive_along_straight(players, from, lo, hi - 1);
        lemma_wrap(from + hi - 1, players.len() as int);
    }
}

/// A stretch of the way round that begins after the last seat is a stretch
/// of seats from the first on.
proof fn lemma_alive_along_wrapped(players: Seq<PlayerView>, from: int, lo: int, hi: int)
    requires
        0 <= from < players.len(),
        players.len() - from <= lo <= hi,
        hi <= players.len(),
    ensures
        alive_along(players, from, lo, hi) == alive_between(
            players,
            from + lo - players.len(),
            from + hi - players.len(),
        ),
    decreases hi - lo,
{
    if lo < hi {
        lemma_alive_along_wrapped(players, from, lo, hi - 1);
        lemma_wrap(from + hi - 1, players.len() as int);
    }
}

/// Once round the table from any seat, everybody with a life left has been
/// counted once.
pub proof fn lemma_alive_along_round(players: Seq<PlayerView>, from: int)
    requires
        0 <= from < players.len(),
    ensures
        alive_along(players, from, 0, players.len() as int) == alive_count(players),
{
    let n = players.len() as int;
    lemma_alive_along_split(players, from, 0, n - from, n);
    lemma_alive_along_straight(players, from, 0, n - from);
    lemma_alive_along_wrapped(players, from, n - from, n);
    lemma_alive_between_split(players, 0, from, n);
    lemma_alive_between_all(players);
}

/// Counting on from a seat further round is counting further round.
proof fn lemma_alive_along_shift(players: Seq<PlayerView>, from: int, by: int, lo: int, hi: int)
    requires
        0 <= from < players.len(),
        0 <= by,
        0 <= lo <= hi,
        by + hi <= players.len(),
    ensures
        alive_along(players, seat_after(players, from, by), lo, hi) == alive_along(
            players,
            from,
            by + lo,
            by + hi,
        ),
    decreases hi - lo,
{
    if lo < hi {
        let n = players.len() as int;
        lemma_alive_along_shift(players, from, by, lo, hi - 1);
        lemma_wrap(from + by, n);
        lemma_wrap(seat_after(players, from, by) + hi - 1, n);
        lemma_wrap(from + by + hi - 1, n);
    }
}

/// The places from one seat round to another bring one there, and no
/// other number of places short of a full round does.
pub proof fn lemma_places_to(players: Seq<PlayerView>, from: int, to: int)
    requires
        0 <= from < players.len(),
        0 <= to < players.len(),
    ensures
        0 <= places_to(players, from, to) < players.len(),
        seat_after(players, from, places_to(players, from, to)) == to,
        places_to(players, from, to) == 0 <==> from == to,
        forall|d: int|
            0 <= d < players.len() && #[trigger] seat_after(players, from, d) == to ==> d
                == places_to(players, from, to),
{
    let n = players.len() as int;
    lemma_wrap(to - from, n);
    lemma_wrap(from + places_to(players, from, to), n);
    assert forall|d: int| 0 <= d < n && #[trigger] seat_after(players, from, d) == to implies d
        == places_to(players, from, to) by {
        lemma_wrap(from + d, n);
    }
}

/// What a knock sets going. When the player in seat `knocker` knocks and
/// nobody else has a life left, the turn stays with that player. Otherwise
/// it passes to another player with a life left, and as many players have a
/// turn to come as there are other players with a life left.
pub proof fn lemma_knock_opens_last_turns(players: Seq<PlayerView>, knocker: int)
    requires
        0 <= knocker < players.len(),
        players[knocker].lives > 0,
    ensures
        ({
            let next = next_seat(players, knocker);
            &&& 0 <= next < players.len()
            &&& next == knocker <==> alive_count(players) == 1
            &&& next != knocker ==> players[next].lives > 0 && turns_to_come(
                players,
                knocker,
                next,
            ) == alive_count(players) - 1
        }),
{
    let n = players.len() as int;
    let steps = steps_to_alive(players, knocker, 1);
    let next = next_seat(players, knocker);
    lemma_steps_to_alive(players, knocker, 1);
    lemma_wrap(knocker + steps, n);
    lemma_wrap(knocker, n);
    lemma_alive_along_round(players, knocker);
    lemma_alive_along_split(players, knocker, 0, 1, n);
    lemma_alive_along_split(players, knocker, 1, steps, n);
    lemma_alive_along_none(players, knocker, 1, steps);
    assert(alive_along(players, knocker, 0, 1) == 1) by {
        assert(alive_along(players, knocker, 0, 0) == 0);
    }
    if steps < n {
        lemma_places_to(players, next, knocker);
        lemma_wrap(next + (n - steps), n);
        assert(seat_after(players, next, n - steps) == knocker);
        assert(places_to(players, next, knocker) == n - steps);
        lemma_alive_along_shift(players, knocker, steps, 0, n - steps);
        assert(alive_along(players, knocker, steps, n) >= 1) by {
            lemma_alive_along_split(players, knocker, steps, steps + 1, n);
            assert(alive_along(players, knocker, steps, steps) == 0);
        }
    } else {
        assert(alive_along(players, knocker, n, n) == 0);
    }
}

/// What each turn after a knock does. While the player in seat `knocker`
/// has knocked and it is the turn of another player, somebody has a turn to
/// come. If it is the last such turn, the turn passes to the player who
/// knocked, and the round is settled. Otherwise it passes to another player
/// with a life left, and one turn fewer is to come.
pub proof fn lemma_knock_counts_down(players: Seq<PlayerView>, knocker: int, turn: int)
    requires
        0 <= knocker < players.len(),
        0 <= turn < players.len(),
        turn != knocker,
        players[knocker].lives > 0,
        players[turn].lives > 0,
    ensures
        ({
            let next = next_seat(players, turn);
            &&& 0 <= next < players.len()
            &&& turns_to_come(players, knocker, turn) >= 1
            &&& next == knocker <==> turns_to_come(players, knocker, turn) == 1
            &&& next != knocker ==> players[next].lives > 0 && turns_to_come(
                players,
                knocker,
                next,
            ) == turns_to_come(players, knocker, turn) - 1
        }),
{
    let n = players.len() as int;
    let steps = steps_to_alive(players, turn, 1);
    let next = next_seat(players, turn);
    let places = places_to(players, turn, knocker);
    lemma_steps_to_alive(players, turn, 1);
    lemma_places_to(players, turn, knocker);
    lemma_wrap(turn + steps, n);
    lemma_wrap(turn, n);
    assert(steps <= places) by {
        if places < steps {
            assert(players[seat_after(players, turn, places)].lives == 0);
        }
    }
    lemma_alive_along_split(players, turn, 0, 1, places);
    lemma_alive_along_split(players, turn, 1, steps, places);
    lemma_alive_along_none(players, turn, 1, steps);
    assert(alive_along(players, turn, 0, 1) == 1) by {
        assert(alive_along(players, turn, 0, 0) == 0);
    }
    if steps < places {
        lemma_places_to(players, next, knocker);
        lemma_wrap(next + (places - steps), n);
        lemma_wrap(turn + places, n);
        assert(seat_after(players, next, places - steps) == knocker);
        assert(places_to(players, next, knocker) == places - steps);
        lemma_alive_along_shift(players, turn, steps, 0, places - steps);
        assert(alive_along(players, turn, steps, places) >= 1) by {
            lemma_alive_along_split(players, turn, steps, steps + 1, places);
            assert(alive_along(players, turn, steps, steps) == 0);
        }
    } else {
        assert(alive_along(players, turn, places, places) == 0);
    }
}

} // verus!
