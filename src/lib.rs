//! Pairings and standings for a Swiss-system tournament.
//!
//! `matching` holds one competitor's result of one round, `players` a
//! competitor with its history and tie-break statistics,
//! `swiss_system_tournament` the roster that applies each round's results,
//! and `matching_algorithm` the two ways of pairing the next round.
use vstd::prelude::*;

pub mod matching;
pub mod players;
pub mod swiss_system_tournament;
pub mod matching_algorithm;

verus! {

} // verus!
