//! A player: who they are, how many lives they have left, and their hand.

use vstd::prelude::*;

use crate::models::card::Card;
use crate::models::hand::Hand;

verus! {

/// One seat at the table. The game alone changes `lives` and `hand`.
#[derive(Debug, Clone)]
pub struct Player {
    /// A stable name for the player that the caller chooses.
    pub id: String,
    /// The name to show.
    pub name: String,
    /// The cards held, if any were dealt.
    pub hand: Option<Hand>,
    /// The lives left; a player with none is out of the game.
    pub lives: u8,
}

/// A player as plain values.
pub struct PlayerView {
    pub id: Seq<char>,
    pub name: Seq<char>,
    pub hand: Option<Seq<Card>>,
    pub lives: nat,
}

impl View for Player {
    type V = PlayerView;

    open spec fn view(&self) -> PlayerView {
        PlayerView {
            id: self.id@,
            name: self.name@,
            hand: match self.hand {
                Some(hand) => Some(hand@),
                None => None,
            },
            lives: self.lives as nat,
        }
    }
}

/// The players of a roster as plain values, seat by seat.
pub open spec fn roster(players: Seq<Player>) -> Seq<PlayerView> {
    Seq::new(players.len(), |i: int| players[i]@)
}

impl Player {
    /// A copy of the player.
    pub fn duplicate(&self) -> (copy: Player)
        ensures
            copy == *self,
    {
        Player { id: self.id.clone(), name: self.name.clone(), hand: self.hand, lives: self.lives }
    }
}

} // verus!
