//! The ways in which an operation on a game, a hand or a deck can fail.

use vstd::prelude::*;

verus! {

/// Every failure that the engine reports to its caller.
#[derive(Debug, Clone, Copy, PartialEq, Eq, Structural)]
pub enum Error {
    /// A card was needed from a pile that holds none.
    DeckEmpty,
    /// A hand of three was asked of a deck that holds fewer.
    NotEnoughCardsInDeck,
    /// A hand slot other than 0, 1 or 2 was named.
    InvalidHandIndex(usize),
    /// The game has left the waiting phase.
    GameAlreadyStarted,
    /// No round has been started yet, or the game is over.
    GameNotStarted,
    /// The last round has ended and the next has not begun.
    RoundNotStarted,
    /// The roster is full.
    MaxPlayersReached,
    /// No player sits at the given seat.
    InvalidPlayerIndex(usize),
    /// The player at the given seat has knocked in this round already.
    PlayerAlreadyKnocked(usize),
    /// A round ended with nobody left alive.
    NoMorePlayers,
    /// No hands have been dealt.
    NoHands,
}

} // verus!
