//! Word-play and reroll advice for a letter-tile scoring game: a curated
//! dictionary, a rack solver that ranks playable words by bonus-aware score,
//! an exact draw-chance estimate, and a two-pass reroll advisor.
use vstd::prelude::*;

pub mod scoring;
pub mod letters;
pub mod probability;
pub mod dictionary;
pub mod solver;
pub mod advisor;
pub mod request;
mod text;

verus! {

} // verus!
