//! One slot of a cache set.

use vstd::prelude::*;

verus! {

/// A block slot inside a cache set: the resident line's tag, the full
/// address of the line (kept for write-back), a validity bit, a dirty bit,
/// and an LRU recency rank (0 = most recently used).
#[derive(Clone, Copy, Debug)]
pub struct Block {
    pub address: usize,
    pub tag: usize,
    pub lru: usize,
    pub valid: bool,
    pub dirty: bool,
}

impl Block {
    /// An empty slot: invalid, clean, tag and address zero, rank 0.
    pub fn new() -> (b: Block)
        ensures
            b == (Block { address: 0, tag: 0, lru: 0, valid: false, dirty: false }),
    {
        Block { address: 0, tag: 0, lru: 0, valid: false, dirty: false }
    }
}

} // verus!
