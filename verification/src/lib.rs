//! Random numbers from independently seeded PCG generators.
//!
//! A [`BetterRng`] takes its seed from the operating system, so that generators which
//! are made in quick succession have nothing in common.
pub mod better_rng;
pub mod bounded;
pub mod entropy;
pub mod laws;
pub mod orbit;
pub mod pcg;
pub mod splitmix;
pub mod uniform;
pub mod weighted;

pub use better_rng::BetterRng;
pub use entropy::FallbackEntropy;
pub use weighted::WeightedPick;
