//! Monte Carlo tree search over two-player games, with a family of board games
//! that plug into it.

pub mod fixed;
pub mod rng;
pub mod game;
pub mod search;
pub mod advance;
pub mod builder;
pub mod fixtures;
pub mod checkers;
pub mod onestone;
pub mod chessbattle70;
pub mod labels;

use vstd::prelude::*;

verus! {

} // verus!
