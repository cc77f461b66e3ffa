//! A solver for a ring puzzle of fourteen symbols: a move model, a pruning
//! table built backwards from the goal, and an iterative-deepening search
//! that returns a cheapest move sequence.
use vstd::prelude::*;

pub mod moves;
pub mod table;
pub mod search;
pub mod script;

verus! {

} // verus!
