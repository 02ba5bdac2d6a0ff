//! Swiss-system tournament scheduling and ranking.
//!
//! Competitors live in an arena (`Vec<Player>`) and refer to one another by
//! their index in it; pairings and the active roster hold such indices too.
//! Win percentages are exact fractions.
pub mod fraction;
pub mod matching;
mod outside;
pub mod pairing;
pub mod player;
pub mod ranking;
pub mod rounds;
pub mod sorting;
pub mod tournament;

pub use fraction::Fraction;
pub use pairing::{InvalidScore, Pairing, PlayerSide};
pub use player::Player;
pub use ranking::Standing;
pub use tournament::{PairingResultError, Tournament};
