//! A two-level set-associative cache hierarchy simulator.
//!
//! The library models an L1 cache optionally backed by an L2 cache, both
//! write-back with least-recently-used replacement, driven one memory access
//! at a time. It classifies each access as a hit or a miss, maintains the
//! per-set recency ranks, selects eviction victims, cascades write-backs
//! between levels, and accumulates the counters a report is rendered from.

pub mod block;
pub mod math;
pub mod cache;
pub mod controller;
pub mod laws;
pub mod set;
pub mod statistics;
pub mod trace;
