//! which: the options of a lookup.
use vstd::prelude::*;

verus! {

/// How `which` looks a path up and reports it.
#[derive(Debug, Clone, Copy)]
pub struct WhichOptions {
    /// Show every branch holding the path, not only the first.
    pub all: bool,
    /// Report each step.
    pub verbose: bool,
    /// Check the copies for a conflict.
    pub conflicts: bool,
    /// Compare copies by hash.
    pub hash: bool,
    /// Report as JSON.
    pub json: bool,
}

} // verus!
