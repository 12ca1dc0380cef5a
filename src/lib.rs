//! A fixed-capacity, crash-consistent ring log of `(timestamp, value)` samples
//! kept in a memory-mapped byte region.

use vstd::prelude::*;

pub mod layout;
pub mod region;
pub mod history;
pub mod laws;

verus! {

} // verus!
