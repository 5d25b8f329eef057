//! The outcome counters one simulation run accumulates.

use vstd::prelude::*;

verus! {

/// Counters of cache outcomes. The prefetch counters are reserved state
/// carried for future extension: the present algorithm never populates
/// them.
#[derive(Clone, Copy, Debug)]
pub struct Statistics {
    pub l1_reads: usize,
    pub l1_read_misses: usize,
    pub l1_writes: usize,
    pub l1_write_misses: usize,
    pub l1_write_backs: usize,
    pub l2_reads: usize,
    pub l2_read_misses: usize,
    pub l2_writes: usize,
    pub l2_write_misses: usize,
    pub l2_write_backs: usize,
    pub total_memory_traffic: usize,
    pub l1_prefetches: usize,
    pub l2_prefetches: usize,
    pub l2_reads_from_l1_prefetch: usize,
    pub l2_read_misses_from_l1_prefetch: usize,
}

impl Statistics {
    /// All counters start at zero.
    pub fn new() -> (s: Statistics)
        ensures
            s == (Statistics {
                l1_reads: 0,
                l1_read_misses: 0,
                l1_writes: 0,
                l1_write_misses: 0,
                l1_write_backs: 0,
                l2_reads: 0,
                l2_read_misses: 0,
                l2_writes: 0,
                l2_write_misses: 0,
                l2_write_backs: 0,
                total_memory_traffic: 0,
                l1_prefetches: 0,
                l2_prefetches: 0,
                l2_reads_from_l1_prefetch: 0,
                l2_read_misses_from_l1_prefetch: 0,
            }),
    {
        Statistics {
            l1_reads: 0,
            l1_read_misses: 0,
            l1_writes: 0,
            l1_write_misses: 0,
            l1_write_backs: 0,
            l2_reads: 0,
            l2_read_misses: 0,
            l2_writes: 0,
            l2_write_misses: 0,
            l2_write_backs: 0,
            total_memory_traffic: 0,
            l1_prefetches: 0,
            l2_prefetches: 0,
            l2_reads_from_l1_prefetch: 0,
            l2_read_misses_from_l1_prefetch: 0,
        }
    }
}

} // verus!
