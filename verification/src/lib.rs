//! Comparison of three verified strategies for sorting numeric strings by
//! their integer value: a key-per-comparison sort, a cached-key sort, and a
//! parse-then-sort pass over the parsed integers.

pub mod numeric;
pub mod ordering;
pub mod strategies;
pub mod generate;

use vstd::prelude::*;

verus! {

} // verus!
