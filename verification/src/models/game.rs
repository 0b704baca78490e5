//! The game: a roster, a deck, a discard pile and the phase of play.

use vstd::prelude::*;

use crate::error::Error;
use crate::models::card::Card;
use crate::models::deck::{full_pack, same_cards, Deck};
use crate::models::hand::Hand;
use crate::models::pack::{lemma_played_whole, lemma_round_started_whole, whole};
use crate::models::player::{roster, Player, PlayerView};
use crate::models::rules::{
    alive_count, cleared, deal_hands, eliminated, first_alive, hands_held, holds_blitz, is_blitz,
    lemma_alive_count_uniform, lemma_counts_bounded, lemma_deal_hands, lemma_first_alive,
    lemma_first_alive_is, lemma_next_seat, lemma_same_hands, lemma_same_lives, lemma_seat_after,
    lowest_hand, lowest_score, next_seat, opening_seat, resolved, revived, score, seat_after,
    seat_of, steps_to_alive, BLITZ, MAX_PLAYERS, STARTING_LIVES,
};

verus! {

/// The phase of play.
#[derive(Debug, Clone)]
pub enum GameState {
    /// Players may join and leave; no round has begun.
    Waiting,
    /// A round is on: it is the turn of the player in seat `turn`, and
    /// `knocked` is the seat of the player who knocked, if anyone has.
    Started { turn: usize, knocked: Option<usize> },
    /// A round is over and the next has not begun; `eliminated` lists the
    /// players whom the round put out of the game.
    RoundEnded { eliminated: Vec<Player> },
    /// The game is over and `winner` has won it.
    GameEnded { winner: Player },
}

/// What a player does with a turn.
#[derive(Debug, Clone, Copy, PartialEq, Eq)]
pub enum Turn {
    /// Takes the top card of the deck into slot `index` of the hand.
    Draw { index: usize },
    /// Takes the top card of the discard pile into slot `index` of the hand.
    DrawDiscard { index: usize },
    /// Knocks: everybody else gets one more turn, then the round ends.
    Knock,
}

/// The phase of play as plain values.
pub enum Phase {
    Waiting,
    Started { turn: usize, knocked: Option<usize> },
    RoundEnded { eliminated: Seq<PlayerView> },
    GameEnded { winner: PlayerView },
}

impl View for GameState {
    type V = Phase;

    open spec fn view(&self) -> Phase {
        match *self {
            GameState::Waiting => Phase::Waiting,
            GameState::Started { turn, knocked } => Phase::Started { turn, knocked },
            GameState::RoundEnded { eliminated } => Phase::RoundEnded {
                eliminated: roster(eliminated@),
            },
            GameState::GameEnded { winner } => Phase::GameEnded { winner: winner@ },
        }
    }
}

/// One game of Blitz.
pub struct Game {
    players: Vec<Player>,
    deck: Deck,
    discard: Deck,
    round: usize,
    state: GameState,
}

/// A game as plain values. The piles list their cards from the bottom to
/// the top.
pub struct GameView {
    pub players: Seq<PlayerView>,
    pub deck: Seq<Card>,
    pub discard: Seq<Card>,
    pub round: nat,
    pub state: Phase,
}

impl View for Game {
    type V = GameView;

    closed spec fn view(&self) -> GameView {
        GameView {
            players: roster(self.players@),
            deck: self.deck@,
            discard: self.discard@,
            round: self.round as nat,
            state: self.state@,
        }
    }
}

/// Whether a round is being played as it should: exactly the players with a
/// life left hold a hand, the player whose turn it is has a life left, and
/// so has the player who knocked, whose turn it is not.
pub open spec fn in_play(players: Seq<PlayerView>, turn: usize, knocked: Option<usize>) -> bool {
    &&& forall|i: int|
        0 <= i < players.len() ==> ((#[trigger] players[i]).lives > 0 <==> players[i].hand.is_some())
    &&& players.len() > 0 ==> players[turn as int].lives > 0
    &&& knocked.is_some() ==> players[knocked.unwrap() as int].lives > 0 && knocked.unwrap()
        != turn
}

/// Whether a round has ended with nobody left alive.
pub open spec fn all_out(players: Seq<PlayerView>) -> bool {
    &&& players.len() > 0
    &&& forall|i: int| 0 <= i < players.len() ==> (#[trigger] players[i]).lives == 0
}

/// What holds of every game, whatever has been played.
pub open spec fn valid(game: GameView) -> bool {
    &&& game.players.len() <= 6
    &&& forall|i: int|
        0 <= i < game.players.len() && (#[trigger] game.players[i]).hand.is_some()
            ==> game.players[i].hand.unwrap().len() == 3
    &&& match game.state {
        Phase::Waiting => game.deck.len() == 52 && game.discard.len() == 0,
        Phase::Started { turn, knocked } => {
            &&& game.discard.len() >= 1
            &&& game.deck.len() + game.discard.len() + 3 * hands_held(game.players) == 52
            &&& game.players.len() == 0 ==> turn == 0
            &&& game.players.len() > 0 ==> turn < game.players.len()
            &&& knocked.is_some() ==> knocked.unwrap() < game.players.len()
            &&& forall|i: int|
                0 <= i < game.players.len() ==> (#[trigger] game.players[i]).lives <= 4
            &&& in_play(game.players, turn, knocked) || all_out(game.players)
        },
        Phase::RoundEnded { eliminated } => {
            &&& alive_count(game.players) >= 2
            &&& forall|i: int|
                0 <= i < game.players.len() ==> (#[trigger] game.players[i]).lives <= 4
        },
        Phase::GameEnded { winner } => true,
    }
}

/// A new game: `founder` alone at the table, `deck` to play with, nothing
/// discarded, waiting for players.
pub open spec fn founded(founder: PlayerView, deck: Seq<Card>) -> GameView {
    GameView {
        players: seq![founder],
        deck,
        discard: Seq::empty(),
        round: 0,
        state: Phase::Waiting,
    }
}

/// The game once a round has been dealt from `deck` to `players`, onto the
/// discard pile `discard`: the hands first, seat by seat, then one card
/// turned over.
pub open spec fn dealt(
    game: GameView,
    players: Seq<PlayerView>,
    deck: Seq<Card>,
    discard: Seq<Card>,
) -> GameView {
    let (seated, rest) = deal_hands(players, deck);
    GameView {
        players: seated,
        deck: rest.drop_last(),
        discard: discard.push(rest.last()),
        state: Phase::Started { turn: opening_seat(seated) as usize, knocked: None },
        ..game
    }
}

/// The game once the next round has begun, with `fresh` as the newly
/// shuffled deck where one is needed, and what the caller is told.
pub open spec fn round_started(game: GameView, fresh: Seq<Card>) -> (GameView, Result<(), Error>) {
    match game.state {
        Phase::Waiting => (dealt(game, revived(game.players), game.deck, game.discard), Ok(())),
        Phase::RoundEnded { eliminated } => (
            dealt(game, game.players, fresh, Seq::empty()),
            Ok(()),
        ),
        _ => (game, Err(Error::GameAlreadyStarted)),
    }
}

/// The game back at the start, with `fresh` as its deck.
pub open spec fn restarted(game: GameView, fresh: Seq<Card>) -> GameView {
    GameView {
        players: cleared(game.players),
        deck: fresh,
        discard: Seq::empty(),
        state: Phase::Waiting,
        ..game
    }
}

/// The game after `player` has asked to join, and what the caller is told.
pub open spec fn after_join(game: GameView, player: PlayerView) -> (GameView, Result<(), Error>) {
    if !(game.state is Waiting) {
        (game, Err(Error::GameAlreadyStarted))
    } else if game.players.len() >= 6 {
        (game, Err(Error::MaxPlayersReached))
    } else {
        (GameView { players: game.players.push(player), ..game }, Ok(()))
    }
}

/// The game after the player in seat `seat` has asked to leave, and what the
/// caller is told.
pub open spec fn after_leave(game: GameView, seat: usize) -> (GameView, Result<(), Error>) {
    if !(game.state is Waiting) {
        (game, Err(Error::GameAlreadyStarted))
    } else if seat >= game.players.len() {
        (game, Err(Error::InvalidPlayerIndex(seat)))
    } else {
        (GameView { players: game.players.remove(seat as int), ..game }, Ok(()))
    }
}

/// The game once the round has been settled with `knocked` as the seat of
/// the player who knocked, and what the caller is told. The losers pay with
/// their lives. With one player left alive the game is over and that player
/// has won it; with more, the round is over; with none, the round cannot be
/// settled, and the phase stays as it is.
pub open spec fn resolve(game: GameView, knocked: Option<usize>) -> (GameView, Result<(), Error>) {
    if !(game.state is Started) {
        (game, Err(Error::RoundNotStarted))
    } else {
        let after = resolved(game.players, knocked);
        if alive_count(after) == 1 {
            (
                GameView {
                    players: after,
                    state: Phase::GameEnded { winner: after[first_alive(after)] },
                    ..game
                },
                Ok(()),
            )
        } else if alive_count(after) > 1 {
            (
                GameView {
                    players: after,
                    state: Phase::RoundEnded {
                        eliminated: eliminated(game.players, knocked, game.players.len() as int),
                    },
                    ..game
                },
                Ok(()),
            )
        } else {
            (GameView { players: after, ..game }, Err(Error::NoMorePlayers))
        }
    }
}

/// The game once the turn has passed on from the player in seat `turn`,
/// with `knocked` as the seat of the player who has knocked, and what the
/// caller is told. Where the turn comes to the player who knocked, the round
/// is settled instead.
pub open spec fn advance(game: GameView, turn: usize, knocked: Option<usize>) -> (
    GameView,
    Result<(), Error>,
) {
    let next = next_seat(game.players, turn as int);
    if knocked.is_some() && knocked.unwrap() == next {
        resolve(game, knocked)
    } else {
        (GameView { state: Phase::Started { turn: next as usize, knocked }, ..game }, Ok(()))
    }
}

/// The game once the player in seat `turn` has taken `card` into slot
/// `index` of the hand and discarded the card that lay there, with `deck`
/// and `discard` as the piles without `card`. A hand of 31 settles the round
/// at once; otherwise the turn passes on.
pub open spec fn swapped(
    game: GameView,
    turn: usize,
    knocked: Option<usize>,
    index: usize,
    card: Card,
    deck: Seq<Card>,
    discard: Seq<Card>,
) -> (GameView, Result<(), Error>) {
    let player = game.players[turn as int];
    let hand = player.hand.unwrap();
    let holding = PlayerView { hand: Some(hand.update(index as int, card)), ..player };
    let next = GameView {
        players: game.players.update(turn as int, holding),
        deck,
        discard: discard.push(hand[index as int]),
        ..game
    };
    if score(holding) == 31 {
        resolve(next, knocked)
    } else {
        advance(next, turn, knocked)
    }
}

/// The game once an empty deck has been made up again from the discard
/// pile, with `shuffled` as the cards of the pile in their new order: the
/// last of them is turned over as the new discard pile, the others are the
/// deck.
pub open spec fn restocked(game: GameView, shuffled: Seq<Card>) -> GameView {
    GameView { deck: shuffled.drop_last(), discard: seq![shuffled.last()], ..game }
}

/// The game after a turn, and what the caller is told. `shuffled` stands
/// for the cards of the discard pile in the order in which they are shuffled
/// back, should the deck be found empty.
pub open spec fn played(game: GameView, action: Turn, shuffled: Seq<Card>) -> (
    GameView,
    Result<(), Error>,
) {
    match game.state {
        Phase::Started { turn, knocked } => {
            if turn >= game.players.len() {
                (game, Err(Error::InvalidPlayerIndex(turn)))
            } else if game.players[turn as int].lives == 0 {
                (game, Err(Error::NoMorePlayers))
            } else {
                match action {
                    Turn::Draw { index } => {
                        let stocked = if game.deck.len() == 0 {
                            restocked(game, shuffled)
                        } else {
                            game
                        };
                        if index >= 3 {
                            (stocked, Err(Error::InvalidHandIndex(index)))
                        } else {
                            swapped(
                                stocked,
                                turn,
                                knocked,
                                index,
                                stocked.deck.last(),
                                stocked.deck.drop_last(),
                                stocked.discard,
                            )
                        }
                    },
                    Turn::DrawDiscard { index } => {
                        if index >= 3 {
                            (game, Err(Error::InvalidHandIndex(index)))
                        } else {
                            swapped(
                                game,
                                turn,
                                knocked,
                                index,
                                game.discard.last(),
                                game.deck,
                                game.discard.drop_last(),
                            )
                        }
                    },
                    Turn::Knock => {
                        if knocked.is_some() {
                            (game, Err(Error::PlayerAlreadyKnocked(knocked.unwrap())))
                        } else {
                            advance(game, turn, Some(turn))
                        }
                    },
                }
            }
        },
        Phase::RoundEnded { eliminated } => (game, Err(Error::RoundNotStarted)),
        _ => (game, Err(Error::GameNotStarted)),
    }
}

/// Whether a turn finds the deck empty and makes it up again from the
/// discard pile.
pub open spec fn restocks(game: GameView, action: Turn) -> bool {
    &&& game.state is Started
    &&& game.state->turn < game.players.len()
    &&& game.players[game.state->turn as int].lives > 0
    &&& action is Draw
    &&& game.deck.len() == 0
}

impl Game {
    /// What holds of every game: see [`valid`].
    pub open spec fn wf(&self) -> bool {
        valid(self@)
    }

    /// A new game with `founder` alone at the table and `deck` to play with.
    pub fn with_deck(founder: Player, deck: Deck) -> (game: Game)
        requires
            deck@.len() == 52,
        ensures
            game.wf(),
            game@ == founded(founder@, deck@),
    {
        let mut players: Vec<Player> = Vec::new();
        players.push(founder);
        let game = Game {
            players,
            deck,
            discard: Deck::new(),
            round: 0,
            state: GameState::Waiting,
        };
        proof {
            founder.hand.unwrap().lemma_three_cards();
            assert(game@.players =~= seq![founder@]);
        }
        game
    }

    /// A new game with `founder` alone at the table and a shuffled pack of
    /// 52 cards to play with.
    pub fn new(player: Player) -> (game: Game)
        ensures
            game.wf(),
            same_cards(game@.deck, full_pack()),
            game@ == founded(player@, game@.deck),
            whole(game@),
    {
        let mut deck = Deck::new_52();
        deck.shuffle();
        proof {
            vstd::seq_lib::to_multiset_len(deck@);
            vstd::seq_lib::to_multiset_len(full_pack());
        }
        Game::with_deck(player, deck)
    }

    /// The phase of play.
    pub fn state(&self) -> (state: &GameState)
        ensures
            state@ == self@.state,
    {
        &self.state
    }

    /// The player called `id`; the last one seated, where several share the
    /// name.
    pub fn player(&self, id: &str) -> (found: Option<&Player>)
        ensures
            match seat_of(self@.players, id@) {
                Some(seat) => 0 <= seat < self@.players.len() && found.is_some()
                    && found.unwrap()@ == self@.players[seat],
                None => found.is_none(),
            },
    {
        let wanted = id.to_owned();
        let mut i: usize = self.players.len();
        assert(roster(self.players@).take(i as int) =~= roster(self.players@));
        while i > 0
            invariant
                i <= self.players@.len(),
                wanted@ == id@,
                seat_of(roster(self.players@), id@) == seat_of(
                    roster(self.players@).take(i as int),
                    id@,
                ),
            decreases i,
        {
            i -= 1;
            proof {
                let seats = roster(self.players@);
                assert(seats.take(i + 1).drop_last() =~= seats.take(i as int));
            }
            if self.players[i].id == wanted {
                return Some(&self.players[i]);
            }
        }
        None
    }

    /// Seats `player` at the end of the roster. Players join only while the
    /// game waits, and no more than six.
    pub fn join(&mut self, player: Player) -> (joined: Result<(), Error>)
        requires
            old(self).wf(),
        ensures
            final(self).wf(),
            (final(self)@, joined) == after_join(old(self)@, player@),
            whole(old(self)@) ==> whole(final(self)@),
    {
        if !matches!(self.state, GameState::Waiting) {
            return Err(Error::GameAlreadyStarted);
        }
        if self.players.len() >= MAX_PLAYERS {
            Err(Error::MaxPlayersReached)
        } else {
            proof {
                player.hand.unwrap().lemma_three_cards();
            }
            self.players.push(player);
            assert(self@.players =~= old(self)@.players.push(player@));
            Ok(())
        }
    }

    /// Takes the player in seat `player_index` off the roster; the players
    /// behind move up by one seat. Players leave only while the game waits.
    pub fn leave(&mut self, player_index: usize) -> (left: Result<(), Error>)
        requires
            old(self).wf(),
        ensures
            final(self).wf(),
            (final(self)@, left) == after_leave(old(self)@, player_index),
            whole(old(self)@) ==> whole(final(self)@),
    {
        if !matches!(self.state, GameState::Waiting) {
            return Err(Error::GameAlreadyStarted);
        }
        if player_index >= self.players.len() {
            Err(Error::InvalidPlayerIndex(player_index))
        } else {
            self.players.remove(player_index);
            assert(self@.players =~= old(self)@.players.remove(player_index as int));
            Ok(())
        }
    }

    /// The card on top of the discard pile.
    pub fn get_discard(&self) -> (card: Result<Card, Error>)
        ensures
            self@.discard.len() > 0 ==> card == Ok::<Card, Error>(self@.discard.last()),
            self@.discard.len() == 0 ==> card == Err::<Card, Error>(Error::DeckEmpty),
    {
        match self.discard.top() {
            Some(card) => Ok(*card),
            None => Err(Error::DeckEmpty),
        }
    }

    /// Puts the game back at the start with `fresh` as its deck: waiting for
    /// players, nothing discarded, everyone at four lives and without a hand.
    pub fn reset_with(&mut self, fresh: Deck)
        requires
            old(self).wf(),
            fresh@.len() == 52,
        ensures
            final(self).wf(),
            final(self)@ == restarted(old(self)@, fresh@),
            same_cards(fresh@, full_pack()) ==> whole(final(self)@),
    {
        self.deck = fresh;
        self.discard = Deck::new();
        let mut i: usize = 0;
        while i < self.players.len()
            invariant
                i <= self.players@.len(),
                self.players@.len() == old(self).players@.len(),
                self.deck == fresh,
                self.discard@ == Seq::<Card>::empty(),
                self.round == old(self).round,
                forall|k: int|
                    0 <= k < i ==> (#[trigger] self.players@[k])@ == cleared(old(self)@.players)[k],
                forall|k: int|
                    i <= k < self.players@.len() ==> #[trigger] self.players@[k] == old(self).players@[k],
            decreases self.players@.len() - i,
        {
            self.players[i].lives = STARTING_LIVES;
            self.players[i].hand = None;
            i += 1;
        }
        self.state = GameState::Waiting;
        assert(self@.players =~= cleared(old(self)@.players));
    }

    /// Puts the game back at the start, whatever its phase: waiting for
    /// players, with a shuffled pack of 52 cards, nothing discarded, and
    /// everyone at four lives and without a hand.
    pub fn reset(&mut self)
        requires
            old(self).wf(),
        ensures
            final(self).wf(),
            same_cards(final(self)@.deck, full_pack()),
            final(self)@ == restarted(old(self)@, final(self)@.deck),
            whole(final(self)@),
            final(self)@.state is Waiting,
            final(self)@.players.len() == old(self)@.players.len(),
            forall|i: int|
                0 <= i < final(self)@.players.len() ==> (#[trigger] final(self)@.players[i]).lives
                    == 4 && final(self)@.players[i].hand.is_none(),
    {
        let mut fresh = Deck::new_52();
        fresh.shuffle();
        proof {
            vstd::seq_lib::to_multiset_len(fresh@);
            vstd::seq_lib::to_multiset_len(full_pack());
        }
        self.reset_with(fresh);
    }

    /// The seat that opens a round: the first whose player has a life left.
    fn opening_turn(&self) -> (seat: usize)
        ensures
            seat == opening_seat(self@.players),
    {
        let mut i: usize = 0;
        while i < self.players.len() && self.players[i].lives == 0
            invariant
                i <= self.players@.len(),
                forall|k: int| 0 <= k < i ==> (#[trigger] roster(self.players@)[k]).lives == 0,
            decreases self.players@.len() - i,
        {
            i += 1;
        }
        proof {
            lemma_first_alive_is(roster(self.players@), i as int);
        }
        if i < self.players.len() {
            i
        } else {
            0
        }
    }

    /// Deals a round from the deck as it stands: a hand to each player with
    /// a life left, seat by seat, then one card onto the discard pile.
    fn deal_round(&mut self) -> (done: Result<(), Error>)
        requires
            old(self)@.players.len() <= 6,
            old(self)@.deck.len() == 52,
        ensures
            done == Ok::<(), Error>(()),
            final(self)@ == dealt(
                old(self)@,
                old(self)@.players,
                old(self)@.deck,
                old(self)@.discard,
            ),
    {
        let ghost before = roster(self.players@);
        let ghost pack = self.deck@;
        let mut i: usize = 0;
        assert(before.take(0) =~= Seq::<PlayerView>::empty());
        while i < self.players.len()
            invariant
                i <= self.players@.len(),
                self.players@.len() == before.len(),
                before.len() <= 6,
                pack.len() == 52,
                self.discard == old(self).discard,
                self.round == old(self).round,
                self.state == old(self).state,
                (roster(self.players@).take(i as int), self.deck@) == deal_hands(
                    before.take(i as int),
                    pack,
                ),
                forall|k: int|
                    i <= k < before.len() ==> (#[trigger] self.players@[k])@ == before[k],
            decreases self.players@.len() - i,
        {
            proof {
                lemma_deal_hands(before.take(i as int), pack);
                lemma_counts_bounded(before.take(i as int));
                assert(before.take(i + 1).drop_last() =~= before.take(i as int));
            }
            if self.players[i].lives == 0 {
                self.players[i].hand = None;
            } else {
                match Hand::deal(&mut self.deck) {
                    Ok(hand) => {
                        self.players[i].hand = Some(hand);
                    },
                    Err(e) => {
                        return Err(e);
                    },
                }
            }
            i += 1;
            proof {
                let (after, left) = deal_hands(before.take(i as int), pack);
                assert(roster(self.players@).take(i as int) =~= after);
                assert(self.deck@ =~= left);
            }
        }
        proof {
            assert(before.take(i as int) =~= before);
            assert(roster(self.players@).take(i as int) =~= roster(self.players@));
            lemma_deal_hands(before, pack);
            lemma_counts_bounded(before);
        }
        match self.deck.pop() {
            Some(card) => {
                self.discard.push(card);
            },
            None => {
                return Err(Error::DeckEmpty);
            },
        }
        let turn = self.opening_turn();
        self.state = GameState::Started { turn, knocked: None };
        Ok(())
    }

    /// Begins the first round: everybody is put at four lives, and the round
    /// is dealt from the deck of the waiting game.
    fn first_round(&mut self) -> (started: Result<(), Error>)
        requires
            old(self).wf(),
            old(self)@.state is Waiting,
        ensures
            final(self).wf(),
            started == Ok::<(), Error>(()),
            final(self)@ == dealt(
                old(self)@,
                revived(old(self)@.players),
                old(self)@.deck,
                old(self)@.discard,
            ),
    {
        let mut i: usize = 0;
        while i < self.players.len()
            invariant
                i <= self.players@.len(),
                self.players@.len() == old(self).players@.len(),
                self.deck == old(self).deck,
                self.discard == old(self).discard,
                self.round == old(self).round,
                self.state == old(self).state,
                forall|k: int|
                    0 <= k < i ==> (#[trigger] self.players@[k])@ == revived(
                        old(self)@.players,
                    )[k],
                forall|k: int|
                    i <= k < self.players@.len() ==> #[trigger] self.players@[k] == old(
                        self
                    ).players@[k],
            decreases self.players@.len() - i,
        {
            self.players[i].lives = STARTING_LIVES;
            i += 1;
        }
        assert(self@.players =~= revived(old(self)@.players));
        let done = self.deal_round();
        proof {
            lemma_alive_count_uniform(revived(old(self)@.players));
            lemma_started_valid(
                old(self)@,
                revived(old(self)@.players),
                old(self)@.deck,
                old(self)@.discard,
            );
        }
        done
    }

    /// Begins a later round: it is dealt from `fresh`, onto an empty discard
    /// pile.
    fn later_round(&mut self, fresh: Deck) -> (started: Result<(), Error>)
        requires
            old(self).wf(),
            old(self)@.state is RoundEnded,
            fresh@.len() == 52,
        ensures
            final(self).wf(),
            started == Ok::<(), Error>(()),
            final(self)@ == dealt(old(self)@, old(self)@.players, fresh@, Seq::empty()),
    {
        self.deck = fresh;
        self.discard = Deck::new();
        let done = self.deal_round();
        proof {
            lemma_started_valid(old(self)@, old(self)@.players, fresh@, Seq::empty());
        }
        done
    }

    /// Begins the next round, with `fresh` as the newly shuffled deck where
    /// one is needed. The first round is dealt from the deck of the waiting
    /// game, to everybody, at four lives each. A later round is dealt from
    /// `fresh`, onto an empty discard pile, to the players who have a life
    /// left; the others are left without a hand. The player in the first seat
    /// with a life left opens the round.
    pub fn start_round_with(&mut self, fresh: Deck) -> (started: Result<(), Error>)
        requires
            old(self).wf(),
            fresh@.len() == 52,
        ensures
            final(self).wf(),
            (final(self)@, started) == round_started(old(self)@, fresh@),
            whole(old(self)@) && same_cards(fresh@, full_pack()) ==> whole(final(self)@),
    {
        proof {
            if whole(old(self)@) && same_cards(fresh@, full_pack()) {
                lemma_round_started_whole(old(self)@, fresh@);
            }
        }
        if matches!(self.state, GameState::Waiting) {
            self.first_round()
        } else if matches!(self.state, GameState::RoundEnded { .. }) {
            self.later_round(fresh)
        } else {
            Err(Error::GameAlreadyStarted)
        }
    }

    /// Begins the next round; a later round than the first is played with a
    /// newly shuffled pack of 52 cards. See [`Game::start_round_with`].
    pub fn start_round(&mut self) -> (started: Result<(), Error>)
        requires
            old(self).wf(),
        ensures
            final(self).wf(),
            whole(old(self)@) ==> whole(final(self)@),
            exists|fresh: Seq<Card>|
                same_cards(fresh, full_pack()) && (final(self)@, started) == round_started(
                    old(self)@,
                    fresh,
                ),
            started.is_ok() <==> old(self)@.state is Waiting || old(self)@.state is RoundEnded,
            started.is_err() ==> started == Err::<(), Error>(Error::GameAlreadyStarted)
                && final(self)@ == old(self)@,
            old(self)@.state is Waiting ==> {
                &&& final(self)@.deck.len() == old(self)@.deck.len() - (3 * old(
                    self
                )@.players.len() + 1)
                &&& final(self)@.discard.len() == 1
                &&& final(self)@.players.len() == old(self)@.players.len()
                &&& forall|i: int|
                    0 <= i < final(self)@.players.len() ==> {
                        &&& (#[trigger] final(self)@.players[i]).hand.is_some()
                        &&& final(self)@.players[i].hand.unwrap().len() == 3
                        &&& final(self)@.players[i].lives == 4
                    }
                &&& final(self)@.state == (Phase::Started { turn: 0, knocked: None })
            },
    {
        if matches!(self.state, GameState::Waiting) {
            proof {
                lemma_first_round(old(self)@);
                assert(same_cards(full_pack(), full_pack()));
                if whole(old(self)@) {
                    lemma_round_started_whole(old(self)@, full_pack());
                }
            }
            self.first_round()
        } else if matches!(self.state, GameState::RoundEnded { .. }) {
            let mut fresh = Deck::new_52();
            fresh.shuffle();
            proof {
                vstd::seq_lib::to_multiset_len(fresh@);
                vstd::seq_lib::to_multiset_len(full_pack());
                if whole(old(self)@) {
                    lemma_round_started_whole(old(self)@, fresh@);
                }
            }
            self.later_round(fresh)
        } else {
            assert(same_cards(full_pack(), full_pack()));
            Err(Error::GameAlreadyStarted)
        }
    }

    /// The seat one place after `turn`, going round the table.
    fn adv_turn(&self, turn: usize) -> (next: usize)
        requires
            turn < self@.players.len(),
        ensures
            next == (turn + 1) % (self@.players.len() as int),
    {
        let seats = self.players.len();
        (turn + 1) % seats
    }

    /// The seat whose turn it is next: the first one round the table after
    /// the present one whose player has a life left. Where no other player
    /// has one, the turn stays where it is. Outside a round it is seat 0.
    pub fn next_turn(&self) -> (next: usize)
        requires
            self.wf(),
        ensures
            next == match self@.state {
                Phase::Started { turn, knocked } => next_seat(self@.players, turn as int),
                _ => 0,
            },
    {
        match self.state {
            GameState::Started { turn, .. } => {
                let n = self.players.len();
                if n == 0 {
                    return turn;
                }
                let ghost seats = roster(self.players@);
                let mut steps: usize = 1;
                let mut next = self.adv_turn(turn);
                proof {
                    lemma_seat_after(seats, turn as int, 0);
                }
                while steps < n && self.players[next].lives == 0
                    invariant
                        n == self.players@.len(),
                        seats == roster(self.players@),
                        turn < n,
                        1 <= steps <= n,
                        next == seat_after(seats, turn as int, steps as int),
                        next < n,
                        steps_to_alive(seats, turn as int, 1) == steps_to_alive(
                            seats,
                            turn as int,
                            steps as int,
                        ),
                    decreases n - steps,
                {
                    proof {
                        lemma_seat_after(seats, turn as int, steps as int);
                        lemma_seat_after(seats, turn as int, steps + 1);
                    }
                    next = self.adv_turn(next);
                    steps += 1;
                }
                proof {
                    lemma_seat_after(seats, turn as int, steps as int);
                }
                next
            },
            _ => 0,
        }
    }

    /// Whether any player holds a hand that scores 31.
    fn is_blitz(&self) -> (blitz: bool)
        ensures
            blitz == is_blitz(self@.players),
    {
        let mut i: usize = 0;
        while i < self.players.len()
            invariant
                i <= self.players@.len(),
                forall|k: int| 0 <= k < i ==> !holds_blitz(#[trigger] roster(self.players@)[k]),
            decreases self.players@.len() - i,
        {
            if let Some(hand) = self.players[i].hand {
                if hand.value() == BLITZ {
                    assert(holds_blitz(roster(self.players@)[i as int]));
                    return true;
                }
            }
            i += 1;
        }
        false
    }

    /// The lowest score among the hands; 0 where nobody holds a hand.
    fn lowest_score(&self) -> (lowest: u32)
        ensures
            lowest == lowest_score(self@.players),
    {
        let mut lowest: Option<u32> = None;
        let mut i: usize = 0;
        assert(roster(self.players@).take(0) =~= Seq::<PlayerView>::empty());
        while i < self.players.len()
            invariant
                i <= self.players@.len(),
                match lowest_hand(roster(self.players@).take(i as int)) {
                    Some(score) => lowest == Some(score as u32) && score <= u32::MAX,
                    None => lowest.is_none(),
                },
            decreases self.players@.len() - i,
        {
            proof {
                let seats = roster(self.players@);
                assert(seats.take(i + 1).drop_last() =~= seats.take(i as int));
            }
            if let Some(hand) = self.players[i].hand {
                let score = hand.value();
                match lowest {
                    Some(least) => {
                        if score < least {
                            lowest = Some(score);
                        }
                    },
                    None => {
                        lowest = Some(score);
                    },
                }
            }
            i += 1;
        }
        assert(roster(self.players@).take(i as int) =~= roster(self.players@));
        match lowest {
            Some(least) => least,
            None => 0,
        }
    }

    /// Settles the round, with `knocked` as the seat of the player who
    /// knocked: the losers pay with their lives, and the game goes on to the
    /// end of the round or of the game. See [`resolve`].
    fn end_round(&mut self, knocked: Option<usize>) -> (ended: Result<(), Error>)
        requires
            old(self).wf(),
        ensures
            final(self).wf(),
            (final(self)@, ended) == resolve(old(self)@, knocked),
    {
        if !matches!(self.state, GameState::Started { .. }) {
            return Err(Error::RoundNotStarted);
        }
        let ghost before = roster(self.players@);
        let ghost after = resolved(before, knocked);
        let blitz = self.is_blitz();
        let lowest = self.lowest_score();
        let mut eliminations: Vec<usize> = Vec::new();
        let mut i: usize = 0;
        while i < self.players.len()
            invariant
                i <= self.players@.len(),
                self.players@.len() == before.len(),
                self.deck == old(self).deck,
                self.discard == old(self).discard,
                self.round == old(self).round,
                self.state == old(self).state,
                after == resolved(before, knocked),
                blitz == is_blitz(before),
                lowest == lowest_score(before),
                forall|k: int| 0 <= k < before.len() ==> (#[trigger] before[k]).lives <= 4,
                forall|k: int| 0 <= k < i ==> (#[trigger] self.players@[k])@ == after[k],
                forall|k: int|
                    i <= k < before.len() ==> (#[trigger] self.players@[k])@ == before[k],
                eliminations@.len() == eliminated(before, knocked, i as int).len(),
                forall|j: int|
                    0 <= j < eliminations@.len() ==> (#[trigger] eliminations@[j]) < before.len()
                        && after[eliminations@[j] as int] == eliminated(
                        before,
                        knocked,
                        i as int,
                    )[j],
            decreases self.players@.len() - i,
        {
            if let Some(hand) = self.players[i].hand {
                let score = hand.value();
                let spared = (blitz && score == BLITZ) || (!blitz && score > lowest);
                if !spared {
                    let knocker = match knocked {
                        Some(seat) => seat == i,
                        None => false,
                    };
                    let cost: u8 = if knocker {
                        2
                    } else {
                        1
                    };
                    let lives = self.players[i].lives;
                    if lives > cost {
                        self.players[i].lives = lives - cost;
                    } else {
                        self.players[i].lives = 0;
                        eliminations.push(i);
                    }
                }
            }
            i += 1;
        }
        assert(roster(self.players@) =~= after);
        let mut remaining: usize = 0;
        let mut k: usize = 0;
        assert(after.take(0) =~= Seq::<PlayerView>::empty());
        while k < self.players.len()
            invariant
                k <= self.players@.len(),
                roster(self.players@) == after,
                remaining == alive_count(after.take(k as int)),
                remaining <= k,
            decreases self.players@.len() - k,
        {
            assert(after.take(k + 1).drop_last() =~= after.take(k as int));
            if self.players[k].lives > 0 {
                remaining += 1;
            }
            k += 1;
        }
        assert(after.take(k as int) =~= after);
        proof {
            lemma_same_hands(after, before);
            lemma_alive_count_uniform(after);
            lemma_first_alive(after);
        }
        if remaining == 1 {
            let seat = self.opening_turn();
            let winner = self.players[seat].duplicate();
            self.state = GameState::GameEnded { winner };
            Ok(())
        } else if remaining > 1 {
            let mut gone: Vec<Player> = Vec::new();
            let mut j: usize = 0;
            while j < eliminations.len()
                invariant
                    j <= eliminations@.len(),
                    gone@.len() == j,
                    roster(self.players@) == after,
                    self.players@.len() == before.len(),
                    eliminations@.len() == eliminated(before, knocked, before.len() as int).len(),
                    forall|m: int|
                        0 <= m < eliminations@.len() ==> (#[trigger] eliminations@[m])
                            < before.len() && after[eliminations@[m] as int] == eliminated(
                            before,
                            knocked,
                            before.len() as int,
                        )[m],
                    forall|m: int|
                        0 <= m < j ==> (#[trigger] gone@[m])@ == eliminated(
                            before,
                            knocked,
                            before.len() as int,
                        )[m],
                decreases eliminations@.len() - j,
            {
                let seat = eliminations[j];
                assert(roster(self.players@)[seat as int] == self.players@[seat as int]@);
                gone.push(self.players[seat].duplicate());
                j += 1;
            }
            assert(roster(gone@) =~= eliminated(before, knocked, before.len() as int));
            self.state = GameState::RoundEnded { eliminated: gone };
            Ok(())
        } else {
            Err(Error::NoMorePlayers)
        }
    }

    /// Makes the deck up again from the discard pile: the pile goes under
    /// the deck, the deck is shuffled, and its top card is turned over as
    /// the new discard pile.
    fn reshuffle(&mut self) -> (done: Result<(), Error>)
        requires
            old(self)@.deck.len() + old(self)@.discard.len() > 0,
        ensures
            done == Ok::<(), Error>(()),
            exists|shuffled: Seq<Card>|
                same_cards(shuffled, old(self)@.deck + old(self)@.discard) && final(self)@
                    == restocked(old(self)@, shuffled),
    {
        self.deck.add(&mut self.discard);
        self.deck.shuffle();
        let ghost shuffled = self.deck@;
        proof {
            vstd::seq_lib::to_multiset_len(shuffled);
            vstd::seq_lib::to_multiset_len(old(self)@.deck + old(self)@.discard);
        }
        match self.deck.pop() {
            Some(card) => {
                self.discard.push(card);
            },
            None => {
                return Err(Error::DeckEmpty);
            },
        }
        proof {
            assert(self.discard@ =~= seq![shuffled.last()]);
            assert(self@ == restocked(old(self)@, shuffled));
        }
        Ok(())
    }

    /// Puts `card` into slot `index` of the hand of the player in seat
    /// `turn` and the card that lay there onto the discard pile. A hand of 31
    /// settles the round at once; otherwise the turn passes on.
    fn swap_in(&mut self, turn: usize, knocked: Option<usize>, index: usize, card: Card) -> (done:
        Result<(), Error>)
        requires
            index < 3,
            old(self)@.state == (Phase::Started { turn, knocked }),
            valid(GameView { discard: old(self)@.discard.push(card), ..old(self)@ }),
            in_play(old(self)@.players, turn, knocked),
            old(self)@.players.len() > 0,
        ensures
            final(self).wf(),
            (final(self)@, done) == swapped(
                old(self)@,
                turn,
                knocked,
                index,
                card,
                old(self)@.deck,
                old(self)@.discard,
            ),
    {
        let ghost before = roster(self.players@);
        assert(before[turn as int].hand.is_some());
        let mut hand: Hand = self.players[turn].hand.unwrap();
        let displaced = match hand.replace(index, card) {
            Ok(displaced) => displaced,
            Err(e) => {
                return Err(e);
            },
        };
        self.players[turn].hand = Some(hand);
        self.discard.push(displaced);
        let ghost holding = PlayerView {
            hand: Some(before[turn as int].hand.unwrap().update(index as int, card)),
            ..before[turn as int]
        };
        proof {
            assert(roster(self.players@) =~= before.update(turn as int, holding));
            lemma_same_hands(roster(self.players@), before);
            lemma_same_lives(roster(self.players@), before);
        }
        if hand.value() == BLITZ {
            self.end_round(knocked)
        } else {
            self.pass_turn(turn, knocked)
        }
    }

    /// Passes the turn on from the player in seat `turn`, with `knocked` as
    /// the seat of the player who has knocked. Where the turn comes to that
    /// player, the round is settled instead.
    fn pass_turn(&mut self, turn: usize, knocked: Option<usize>) -> (done: Result<(), Error>)
        requires
            old(self).wf(),
            old(self)@.state is Started,
            old(self)@.state->turn == turn,
            old(self)@.players.len() > 0,
            in_play(old(self)@.players, turn, None),
            knocked.is_some() ==> knocked.unwrap() < old(self)@.players.len() && old(
                self,
            )@.players[knocked.unwrap() as int].lives > 0,
        ensures
            final(self).wf(),
            (final(self)@, done) == advance(old(self)@, turn, knocked),
    {
        let next = self.next_turn();
        proof {
            lemma_next_seat(self@.players, turn as int);
        }
        let ends = match knocked {
            Some(seat) => seat == next,
            None => false,
        };
        if ends {
            self.end_round(knocked)
        } else {
            self.state = GameState::Started { turn: next, knocked };
            Ok(())
        }
    }

    /// Plays one turn, and says in which order the cards of the discard
    /// pile were shuffled back, should the deck have been found empty.
    fn take_turn(&mut self, turn: Turn) -> (done: (Result<(), Error>, Ghost<Seq<Card>>))
        requires
            old(self).wf(),
        ensures
            final(self).wf(),
            same_cards(done.1@, old(self)@.discard),
            (final(self)@, done.0) == played(old(self)@, turn, done.1@),
            !restocks(old(self)@, turn) ==> done.1@ == old(self)@.discard,
    {
        let ghost mut shuffled = self@.discard;
        let (player_turn, knocked) = match self.state {
            GameState::Started { turn, knocked } => (turn, knocked),
            GameState::RoundEnded { .. } => {
                return (Err(Error::RoundNotStarted), Ghost(shuffled));
            },
            _ => {
                return (Err(Error::GameNotStarted), Ghost(shuffled));
            },
        };
        if player_turn >= self.players.len() {
            return (Err(Error::InvalidPlayerIndex(player_turn)), Ghost(shuffled));
        }
        if self.players[player_turn].lives == 0 {
            return (Err(Error::NoMorePlayers), Ghost(shuffled));
        }
        proof {
            lemma_counts_bounded(self@.players);
        }
        match turn {
            Turn::Draw { index } => {
                if self.deck.len() == 0 {
                    let stocked = self.reshuffle();
                    proof {
                        shuffled = choose|shuffled: Seq<Card>|
                            same_cards(shuffled, old(self)@.deck + old(self)@.discard) && self@
                                == restocked(old(self)@, shuffled);
                        assert(old(self)@.deck + old(self)@.discard =~= old(self)@.discard);
                        vstd::seq_lib::to_multiset_len(shuffled);
                        vstd::seq_lib::to_multiset_len(old(self)@.discard);
                    }
                    if let Err(e) = stocked {
                        return (Err(e), Ghost(shuffled));
                    }
                }
                if index >= 3 {
                    return (Err(Error::InvalidHandIndex(index)), Ghost(shuffled));
                }
                let card = match self.deck.pop() {
                    Some(card) => card,
                    None => {
                        return (Err(Error::DeckEmpty), Ghost(shuffled));
                    },
                };
                let ghost stocked = if old(self)@.deck.len() == 0 {
                    restocked(old(self)@, shuffled)
                } else {
                    old(self)@
                };
                assert(stocked.deck =~= self@.deck.push(card));
                (self.swap_in(player_turn, knocked, index, card), Ghost(shuffled))
            },
            Turn::DrawDiscard { index } => {
                if index >= 3 {
                    return (Err(Error::InvalidHandIndex(index)), Ghost(shuffled));
                }
                let card = match self.discard.pop() {
                    Some(card) => card,
                    None => {
                        return (Err(Error::DeckEmpty), Ghost(shuffled));
                    },
                };
                (self.swap_in(player_turn, knocked, index, card), Ghost(shuffled))
            },
            Turn::Knock => {
                if let Some(seat) = knocked {
                    return (Err(Error::PlayerAlreadyKnocked(seat)), Ghost(shuffled));
                }
                (self.pass_turn(player_turn, Some(player_turn)), Ghost(shuffled))
            },
        }
    }

    /// Plays one turn for the player whose turn it is.
    ///
    /// To draw, the player takes the top card of the deck, or of the discard
    /// pile, into a slot of the hand, and discards the card that lay there. A
    /// deck found empty is first made up again from the discard pile, whose
    /// cards are shuffled; one of them is turned over as the new pile. A slot
    /// other than 0, 1 or 2 is refused before a card is taken. A hand of 31
    /// settles the round at once.
    ///
    /// To knock, the player gives up the turn; nobody knocks twice in a round.
    ///
    /// The turn then passes to the next player with a life left, and when it
    /// comes to the player who knocked, the round is settled. A round that
    /// would leave nobody alive cannot be settled: the lives are lost, the
    /// phase stays as it is, and no further turn is played.
    pub fn play_turn(&mut self, turn: Turn) -> (done: Result<(), Error>)
        requires
            old(self).wf(),
        ensures
            final(self).wf(),
            whole(old(self)@) ==> whole(final(self)@),
            exists|shuffled: Seq<Card>|
                same_cards(shuffled, old(self)@.discard) && (final(self)@, done) == played(
                    old(self)@,
                    turn,
                    shuffled,
                ),
            !restocks(old(self)@, turn) ==> (final(self)@, done) == played(
                old(self)@,
                turn,
                old(self)@.discard,
            ),
    {
        let (done, Ghost(shuffled)) = self.take_turn(turn);
        proof {
            if whole(old(self)@) {
                lemma_played_whole(old(self)@, turn, shuffled);
            }
        }
        done
    }

    /// The roster, seat by seat.
    pub fn players(&self) -> (players: &Vec<Player>)
        ensures
            roster(players@) == self@.players,
    {
        &self.players
    }

    /// The deck that the players draw from.
    pub fn deck(&self) -> (deck: &Deck)
        ensures
            deck@ == self@.deck,
    {
        &self.deck
    }

    /// The discard pile.
    pub fn discard(&self) -> (pile: &Deck)
        ensures
            pile@ == self@.discard,
    {
        &self.discard
    }
}


/// A round dealt from a pack of 52 cards to at most six players, none with
/// more than four lives and one of them with a life left unless the table
/// is empty, leaves the game as it should be.
pub proof fn lemma_started_valid(
    game: GameView,
    players: Seq<PlayerView>,
    deck: Seq<Card>,
    discard: Seq<Card>,
)
    requires
        players.len() <= 6,
        deck.len() == 52,
        discard.len() == 0,
        forall|i: int| 0 <= i < players.len() ==> (#[trigger] players[i]).lives <= 4,
        players.len() > 0 ==> alive_count(players) > 0,
    ensures
        valid(dealt(game, players, deck, discard)),
{
    let (seated, rest) = deal_hands(players, deck);
    lemma_deal_hands(players, deck);
    lemma_counts_bounded(players);
    lemma_same_lives(seated, players);
    lemma_first_alive(players);
    lemma_first_alive(seated);
}

/// The first round, dealt to the `n` players of a waiting game, takes
/// `3 * n + 1` cards off the deck, gives every player three of them, and
/// leaves one on the discard pile.
pub proof fn lemma_first_round(game: GameView)
    requires
        valid(game),
        game.state is Waiting,
    ensures
        ({
            let next = dealt(game, revived(game.players), game.deck, game.discard);
            &&& next.deck.len() == game.deck.len() - (3 * game.players.len() + 1)
            &&& next.discard.len() == 1
            &&& next.players.len() == game.players.len()
            &&& forall|i: int|
                0 <= i < next.players.len() ==> (#[trigger] next.players[i]).hand.is_some()
                    && next.players[i].hand.unwrap().len() == 3 && next.players[i].lives == 4
            &&& next.state == (Phase::Started { turn: 0, knocked: None })
        }),
{
    let players = revived(game.players);
    lemma_deal_hands(players, game.deck);
    lemma_alive_count_uniform(players);
    let (seated, rest) = deal_hands(players, game.deck);
    if seated.len() > 0 {
        lemma_first_alive_is(seated, 0);
    }
}

} // verus!
