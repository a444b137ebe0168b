//! A solver for the sliding-block puzzle on a board of five rows and four
//! columns: board model, footprint inference, slides and breadth-first search.
use vstd::prelude::*;

pub mod search;
pub mod state;

verus! {

} // verus!
