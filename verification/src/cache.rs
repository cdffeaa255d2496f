//! What is remembered of a branch during one command.
use vstd::prelude::*;

verus! {

/// The space of a branch's filesystem, as read once.
#[derive(Debug, Clone, Copy)]
pub struct SpaceInfo {
    /// Bytes available.
    pub available: u64,
    /// Bytes in all.
    pub total: u64,
}

impl SpaceInfo {
    /// Bytes in use: the total less what is available, never below zero.
    pub fn used(&self) -> (r: u64)
        ensures
            r == if self.total >= self.available {
                self.total - self.available
            } else {
                0
            },
    {
        self.total.saturating_sub(self.available)
    }
}

} // verus!
