//! A Santorini engine: bitboard state, move generation, hashing,
//! heuristics and game-tree search.
use vstd::prelude::*;

pub mod bits;
pub mod game;
pub mod service;
pub mod client;

verus! {

} // verus!
