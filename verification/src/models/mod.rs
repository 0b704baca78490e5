//! The pieces of the game: cards, decks, hands, players and the game itself.

pub mod card;
pub mod deck;
pub mod game;
pub mod hand;
pub mod pack;
pub mod player;
pub mod round;
pub mod rules;
pub mod turns;

pub use card::{Card, CardFace, CardSuit};
pub use deck::Deck;
pub use game::Game;
pub use hand::Hand;
pub use player::Player;
