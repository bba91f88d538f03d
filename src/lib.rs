//! Round-robin tournament scheduling for rock-paper-scissors style games.
//!
//! The library tracks players, generates every pairing for the configured
//! number of rounds, records results and keeps a priority index over the
//! pairings so that the next match to play is always well defined.

pub mod moves;
pub mod queue;
pub mod matches;
pub mod game;
pub mod quotes;

pub use game::{Game, GameError};
pub use matches::{Match, Player};
pub use moves::{GameMode, Playable, Rps, RpsResult, Rpssl};
pub use quotes::get_quote;
