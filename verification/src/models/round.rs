//! What holds of a round: who pays for it and how much, when it ends the
//! game, what a knock brings about, and what becomes of the piles when the
//! deck runs out.

use vstd::prelude::*;

use crate::error::Error;
use crate::models::card::Card;
use crate::models::deck::same_cards;
use crate::models::game::{
    advance, after_join, after_leave, resolve, restocked, round_started, valid, GameView,
};
use crate::models::player::PlayerView;
use crate::models::rules::{
    alive_count, is_blitz, lemma_deal_hands, lemma_first_alive, lemma_lowest_score, loses,
    lowest_score, resolved, score,
};
use crate::models::turns::{
    lemma_knock_counts_down, lemma_knock_opens_last_turns, turns_to_come,
};

verus! {

/// Who loses a round. When somebody holds 31, everybody with another score
/// loses. Otherwise everybody who holds the lowest score loses, however many
/// they are, and nobody else. A player without a hand never loses.
pub proof fn lemma_losers(players: Seq<PlayerView>, seat: int)
    requires
        0 <= seat < players.len(),
    ensures
        players[seat].hand.is_none() ==> !loses(players, seat),
        players[seat].hand.is_some() && is_blitz(players) ==> (loses(players, seat) <==> score(
            players[seat],
        ) != 31),
        players[seat].hand.is_some() && !is_blitz(players) ==> (loses(players, seat) <==> score(
            players[seat],
        ) == lowest_score(players)),
{
    lemma_lowest_score(players);
}

/// What a round costs. A loser who knocked pays two lives, any other loser
/// one; nobody's lives fall below 0; and whoever does not lose keeps what
/// they have. Names and hands stay as they are.
pub proof fn lemma_round_costs(players: Seq<PlayerView>, knocked: Option<usize>, seat: int)
    requires
        0 <= seat < players.len(),
    ensures
        ({
            let before = players[seat];
            let after = resolved(players, knocked)[seat];
            &&& after.id == before.id
            &&& after.name == before.name
            &&& after.hand == before.hand
            &&& !loses(players, seat) ==> after.lives == before.lives
            &&& loses(players, seat) && knocked.is_some() && knocked.unwrap() == seat ==> after.lives
                == if before.lives >= 2 {
                before.lives - 2
            } else {
                0
            }
            &&& loses(players, seat) && !(knocked.is_some() && knocked.unwrap() == seat)
                ==> after.lives == if before.lives >= 1 {
                before.lives - 1
            } else {
                0
            }
        }),
{
}

/// A round that is settled ends the game exactly when one player is left
/// with a life, and that player has won; it ends as a round when more are
/// left; and it cannot be settled when none is.
pub proof fn lemma_game_over(game: GameView, knocked: Option<usize>)
    requires
        game.state is Started,
    ensures
        ({
            let (next, told) = resolve(game, knocked);
            &&& next.players == resolved(game.players, knocked)
            &&& next.state is GameEnded <==> alive_count(next.players) == 1
            &&& next.state is RoundEnded <==> alive_count(next.players) >= 2
            &&& told == Err::<(), Error>(Error::NoMorePlayers) <==> alive_count(next.players) == 0
            &&& told.is_ok() <==> alive_count(next.players) >= 1
            &&& next.state is GameEnded ==> exists|seat: int|
                0 <= seat < next.players.len() && next.players[seat] == next.state->winner
                    && next.players[seat].lives > 0
        }),
{
    let after = resolved(game.players, knocked);
    lemma_first_alive(after);
}

/// A player whom a round has put out of the game is dealt no hand in the
/// next, and everybody else is dealt three cards.
pub proof fn lemma_next_deal(game: GameView, fresh: Seq<Card>)
    requires
        valid(game),
        game.state is RoundEnded,
        fresh.len() == 52,
    ensures
        ({
            let (next, told) = round_started(game, fresh);
            &&& told.is_ok()
            &&& next.state is Started
            &&& next.players.len() == game.players.len()
            &&& forall|seat: int|
                0 <= seat < game.players.len() ==> {
                    &&& (#[trigger] next.players[seat]).lives == game.players[seat].lives
                    &&& game.players[seat].lives == 0 ==> next.players[seat].hand.is_none()
                    &&& game.players[seat].lives > 0 ==> next.players[seat].hand.is_some()
                        && next.players[seat].hand.unwrap().len() == 3
                }
        }),
{
    lemma_deal_hands(game.players, fresh);
}

/// Once a round has been started, nobody joins and nobody leaves.
pub proof fn lemma_table_closed(game: GameView, fresh: Seq<Card>, player: PlayerView, seat: usize)
    requires
        round_started(game, fresh).1.is_ok(),
    ensures
        ({
            let (next, told) = round_started(game, fresh);
            &&& after_join(next, player) == (next, Err::<(), Error>(Error::GameAlreadyStarted))
            &&& after_leave(next, seat) == (next, Err::<(), Error>(Error::GameAlreadyStarted))
        }),
{
}

/// What becomes of the piles when the deck has run out: the cards of the
/// discard pile, in whatever order they were shuffled, make up the new deck
/// but for one, which alone is the new discard pile.
pub proof fn lemma_restocked(game: GameView, shuffled: Seq<Card>)
    requires
        same_cards(shuffled, game.discard),
        game.discard.len() > 0,
    ensures
        ({
            let next = restocked(game, shuffled);
            &&& next.discard.len() == 1
            &&& next.deck.len() == game.discard.len() - 1
            &&& same_cards(next.deck + next.discard, game.discard)
            &&& next.players == game.players
            &&& next.state == game.state
        }),
{
    vstd::seq_lib::to_multiset_len(shuffled);
    vstd::seq_lib::to_multiset_len(game.discard);
    let next = restocked(game, shuffled);
    assert(next.deck + next.discard =~= shuffled);
}

/// What a knock brings about. The player in seat `knocker`, whose turn it
/// is, knocks. If nobody else has a life left, the round is settled at once.
/// Otherwise the turn passes to the next player with a life left, the knock
/// is on record, and as many turns are to come as there are other players
/// with a life left.
pub proof fn lemma_knock(game: GameView, knocker: usize)
    requires
        game.players.len() <= 6,
        knocker < game.players.len(),
        game.players[knocker as int].lives > 0,
    ensures
        ({
            let (next, told) = advance(game, knocker, Some(knocker));
            &&& alive_count(game.players) == 1 ==> (next, told) == resolve(game, Some(knocker))
            &&& alive_count(game.players) != 1 ==> {
                &&& told == Ok::<(), Error>(())
                &&& next.players == game.players
                &&& next.state is Started
                &&& next.state->knocked == Some(knocker)
                &&& next.state->turn != knocker
                &&& next.state->turn < game.players.len()
                &&& game.players[next.state->turn as int].lives > 0
                &&& turns_to_come(game.players, knocker as int, next.state->turn as int)
                    == alive_count(game.players) - 1
            }
        }),
{
    lemma_knock_opens_last_turns(game.players, knocker as int);
}

/// What each turn after a knock brings about. The player in seat `knocker`
/// has knocked, and the player in seat `turn` has played. If that was the
/// last turn to come, the round is settled, without another turn for the
/// player who knocked. Otherwise the turn passes to the next player with a
/// life left, who is not the player who knocked, and one turn fewer is to
/// come. So everybody but the player who knocked plays exactly once more.
pub proof fn lemma_last_turns(game: GameView, knocker: usize, turn: usize)
    requires
        game.players.len() <= 6,
        knocker < game.players.len(),
        turn < game.players.len(),
        turn != knocker,
        game.players[knocker as int].lives > 0,
        game.players[turn as int].lives > 0,
    ensures
        ({
            let (next, told) = advance(game, turn, Some(knocker));
            let left = turns_to_come(game.players, knocker as int, turn as int);
            &&& left >= 1
            &&& left == 1 ==> (next, told) == resolve(game, Some(knocker))
            &&& left > 1 ==> {
                &&& told == Ok::<(), Error>(())
                &&& next.players == game.players
                &&& next.state is Started
                &&& next.state->knocked == Some(knocker)
                &&& next.state->turn != knocker
                &&& next.state->turn < game.players.len()
                &&& game.players[next.state->turn as int].lives > 0
                &&& turns_to_come(game.players, knocker as int, next.state->turn as int) == left
                    - 1
            }
        }),
{
    lemma_knock_counts_down(game.players, knocker as int, turn as int);
}

} // verus!
