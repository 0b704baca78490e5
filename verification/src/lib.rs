//! Rules engine for Blitz, a turn-based elimination card game played for
//! the best same-suit total of a three-card hand.

pub mod error;
pub mod models;
