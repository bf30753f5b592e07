//! Finds the links of an HTML page and decides which of them are broken.
use vstd::prelude::*;

pub mod check;
pub mod extract;
pub mod run;
pub mod schedule;

verus! {

/// How many link checks may be in flight at once.
pub const CONCURRENCY_LIMIT: usize = 10;

} // verus!
