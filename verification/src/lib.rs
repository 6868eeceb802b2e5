//! A heads-up no-limit hold 'em engine: cards and card sets, hand scoring,
//! chip accounting, the betting rules and the finite betting tree they
//! grow, hand equivalence hashing, showdown caches and the deterministic
//! xorshift generator that drives the playouts.

pub mod bits;
pub mod game;
pub mod cardset;
pub mod rng;
pub mod hash;
pub mod tree;
pub mod betting;
pub mod state;
pub mod sort;
pub mod cache;
pub mod ranking;
pub mod showdown;
pub mod best_five;

use vstd::prelude::*;

verus! {

} // verus!
