//! Letter Boxed puzzle solving: board layout, lexicon filtering and a greedy
//! word-chain search, with their contracts.
use vstd::prelude::*;

pub mod board;
pub mod lexicon;
pub mod solver;

verus! {

} // verus!
