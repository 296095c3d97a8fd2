//! Planning core of a grid-exploring agent: a best-first search engine over
//! an abstract problem, nearest-content and point-to-point searches on the
//! agent's known map, a controller that collects content under an energy
//! budget, and an evolutionary solver that splits the collected load across
//! destinations.
use vstd::prelude::*;

pub mod collect;
pub mod distribution;
pub mod grid;
pub mod partition;
pub mod problems;
pub mod search;
pub mod storage;

verus! {

} // verus!
