//! A simplified collectible-card-game match: the phase-by-phase rules engine, the drivers that
//! play a match out, and the Monte Carlo tally used to compare deck compositions.

pub mod card;
pub mod game;
pub mod laws;
pub mod listing;
pub mod sim;
