//! The hierarchy controller: drives one trace access through L1, then on
//! an L1 miss through L2 (when present) and main memory, applying the
//! write-back-on-eviction rule at each boundary and accumulating the
//! outcome counters.

use vstd::prelude::*;
use crate::block::Block;
use crate::cache::{Cache, HitOrMiss};
use crate::statistics::Statistics;
use crate::trace::Operation;
use crate::set::{has_valid_tag, has_tag, all_valid, touch_effect, write_effect,
    install_effect, evict_effect, evict_outcome, lemma_evict_wf, lemma_no_tag_no_valid,
    lemma_evict_not_full, lemma_install_has_tag};

verus! {

/// The set an L1 miss leaves behind: evict if full, install the line,
/// and on a write also perform the deferred write that marks it dirty.
pub open spec fn miss_fill(s: Seq<Block>, tag: usize, address: usize, op: Operation) -> Seq<Block> {
    let s1 = if all_valid(s) {
        evict_effect(s)
    } else {
        s
    };
    let s2 = install_effect(s1, tag, address);
    if op == Operation::Write {
        write_effect(s2, tag)
    } else {
        s2
    }
}

/// L2 after receiving the write-back of a dirty L1 victim: a write hit
/// updates the bearing slot in place; a write miss evicts if full and
/// installs. The installed line records the address of the access that
/// caused the write-back, as the cascade hands it down.
pub open spec fn writeback_view(l2: Cache, victim_address: usize, fill_address: usize) -> Seq<
    Seq<Block>,
> {
    let idx = l2.spec_index_of(victim_address) as int;
    let tag = l2.spec_tag_of(victim_address);
    let s = l2@[idx];
    if has_tag(s, tag) {
        l2@.update(idx, write_effect(s, tag))
    } else {
        let s1 = if all_valid(s) {
            evict_effect(s)
        } else {
            s
        };
        l2@.update(idx, install_effect(s1, tag, fill_address))
    }
}

/// L2 after the demand read of a missing L1 line: a read hit promotes the
/// slot; a read miss evicts if full and installs the line from memory.
pub open spec fn fetch_view(l2view: Seq<Seq<Block>>, idx: int, tag: usize, address: usize) -> Seq<
    Seq<Block>,
> {
    let s = l2view[idx];
    if has_valid_tag(s, tag) {
        l2view.update(idx, touch_effect(s, tag))
    } else {
        let s1 = if all_valid(s) {
            evict_effect(s)
        } else {
            s
        };
        l2view.update(idx, install_effect(s1, tag, address))
    }
}

/// The controller: exclusive owner of both cache levels and of the
/// counters for the whole run.
pub struct HierarchyController {
    pub l1: Cache,
    pub l2: Cache,
    pub stats: Statistics,
}

impl HierarchyController {
    /// Both levels are well-formed and L1 exists; L2 may be absent.
    pub open spec fn wf(self) -> bool {
        &&& self.l1.wf()
        &&& self.l2.wf()
        &&& self.l1.spec_is_present()
    }

    /// Every counter one access can move has room for that access.
    pub open spec fn stats_headroom(self) -> bool {
        &&& self.stats.l1_reads as int + 4 <= usize::MAX as int
        &&& self.stats.l1_read_misses as int + 4 <= usize::MAX as int
        &&& self.stats.l1_writes as int + 4 <= usize::MAX as int
        &&& self.stats.l1_write_misses as int + 4 <= usize::MAX as int
        &&& self.stats.l1_write_backs as int + 4 <= usize::MAX as int
        &&& self.stats.l2_reads as int + 4 <= usize::MAX as int
        &&& self.stats.l2_read_misses as int + 4 <= usize::MAX as int
        &&& self.stats.l2_writes as int + 4 <= usize::MAX as int
        &&& self.stats.l2_write_misses as int + 4 <= usize::MAX as int
        &&& self.stats.l2_write_backs as int + 4 <= usize::MAX as int
        &&& self.stats.total_memory_traffic as int + 4 <= usize::MAX as int
    }

    pub open spec fn idx1(self, address: usize) -> int {
        self.l1.spec_index_of(address) as int
    }

    pub open spec fn tg1(self, address: usize) -> usize {
        self.l1.spec_tag_of(address)
    }

    pub open spec fn idx2(self, address: usize) -> int {
        self.l2.spec_index_of(address) as int
    }

    pub open spec fn tg2(self, address: usize) -> usize {
        self.l2.spec_tag_of(address)
    }

    /// Whether the access hits in L1: a read needs a valid bearing slot,
    /// a write any bearing slot.
    pub open spec fn spec_l1_hit(self, op: Operation, address: usize) -> bool {
        if op == Operation::Read {
            has_valid_tag(self.l1@[self.idx1(address)], self.tg1(address))
        } else {
            has_tag(self.l1@[self.idx1(address)], self.tg1(address))
        }
    }

    /// An L1 miss to a full set evicts.
    pub open spec fn spec_l1_evicts(self, op: Operation, address: usize) -> bool {
        !self.spec_l1_hit(op, address) && all_valid(self.l1@[self.idx1(address)])
    }

    /// The (address, dirty) pair of the L1 victim of this access.
    pub open spec fn spec_victim(self, address: usize) -> (usize, bool) {
        evict_outcome(self.l1@[self.idx1(address)])
    }

    /// A write-back is owed: a dirty L1 victim was evicted.
    pub open spec fn spec_writeback_owed(self, op: Operation, address: usize) -> bool {
        self.spec_l1_evicts(op, address) && self.spec_victim(address).1
    }

    /// L1's sets when the access completes.
    pub open spec fn spec_l1_after(self, op: Operation, address: usize) -> Seq<Seq<Block>> {
        let i = self.idx1(address);
        let t = self.tg1(address);
        let s = self.l1@[i];
        if self.spec_l1_hit(op, address) {
            if op == Operation::Read {
                self.l1@.update(i, touch_effect(s, t))
            } else {
                self.l1@.update(i, write_effect(s, t))
            }
        } else {
            self.l1@.update(i, miss_fill(s, t, address, op))
        }
    }

    /// L2's sets after the write-back phase, before the demand read.
    pub open spec fn spec_l2_mid(self, op: Operation, address: usize) -> Seq<Seq<Block>> {
        if self.spec_writeback_owed(op, address) && self.l2.spec_is_present() {
            writeback_view(self.l2, self.spec_victim(address).0, address)
        } else {
            self.l2@
        }
    }

    /// Whether the demand read hits in L2, judged after the write-back
    /// phase has already reshaped the level.
    pub open spec fn spec_l2_read_hit(self, op: Operation, address: usize) -> bool {
        has_valid_tag(self.spec_l2_mid(op, address)[self.idx2(address)], self.tg2(address))
    }

    /// L2's sets when the access completes.
    pub open spec fn spec_l2_after(self, op: Operation, address: usize) -> Seq<Seq<Block>> {
        if self.spec_l1_hit(op, address) || !self.l2.spec_is_present() {
            self.l2@
        } else {
            fetch_view(
                self.spec_l2_mid(op, address),
                self.idx2(address),
                self.tg2(address),
                address,
            )
        }
    }

    /// The write-back to L2 misses: no L2 slot bears the victim's tag.
    pub open spec fn spec_wb_misses(self, op: Operation, address: usize) -> bool {
        &&& self.spec_writeback_owed(op, address)
        &&& self.l2.spec_is_present()
        &&& !has_tag(
            self.l2@[self.l2.spec_index_of(self.spec_victim(address).0) as int],
            self.l2.spec_tag_of(self.spec_victim(address).0),
        )
    }

    /// 1 when the write-back phase itself evicts a dirty L2 victim.
    pub open spec fn spec_wb_evict_dirty(self, op: Operation, address: usize) -> int {
        if self.spec_wb_misses(op, address) && all_valid(
            self.l2@[self.l2.spec_index_of(self.spec_victim(address).0) as int],
        ) && evict_outcome(
            self.l2@[self.l2.spec_index_of(self.spec_victim(address).0) as int],
        ).1 {
            1
        } else {
            0
        }
    }

    /// 1 when the demand fetch evicts a dirty L2 victim.
    pub open spec fn spec_fetch_evict_dirty(self, op: Operation, address: usize) -> int {
        if !self.spec_l1_hit(op, address) && self.l2.spec_is_present() && !self.spec_l2_read_hit(
            op,
            address,
        ) && all_valid(self.spec_l2_mid(op, address)[self.idx2(address)]) && evict_outcome(
            self.spec_l2_mid(op, address)[self.idx2(address)],
        ).1 {
            1
        } else {
            0
        }
    }

    /// How many accesses reach main memory on this access: installs and
    /// write-backs no cache absorbs.
    pub open spec fn spec_traffic_delta(self, op: Operation, address: usize) -> int {
        if self.spec_l1_hit(op, address) {
            0
        } else if !self.l2.spec_is_present() {
            (if self.spec_writeback_owed(op, address) {
                1int
            } else {
                0
            }) + 1
        } else {
            (if self.spec_wb_misses(op, address) {
                1 + self.spec_wb_evict_dirty(op, address)
            } else {
                0
            }) + (if !self.spec_l2_read_hit(op, address) {
                1 + self.spec_fetch_evict_dirty(op, address)
            } else {
                0
            })
        }
    }

    /// The write-back phase of an L1 miss: evict the L1 victim if the
    /// set is full, and hand a dirty victim to L2 (or count it against
    /// main memory when no L2 exists).
    fn write_back_phase(&mut self, op: Operation, address: usize, index1: usize)
        requires
            old(self).wf(),
            (address as int) < 0x1_0000_0000,
            index1 as int == old(self).idx1(address),
            !old(self).spec_l1_hit(op, address),
            old(self).stats.l1_write_backs as int + 4 <= usize::MAX as int,
            old(self).stats.l2_writes as int + 4 <= usize::MAX as int,
            old(self).stats.l2_write_misses as int + 4 <= usize::MAX as int,
            old(self).stats.l2_write_backs as int + 4 <= usize::MAX as int,
            old(self).stats.total_memory_traffic as int + 4 <= usize::MAX as int,
        ensures
            final(self).wf(),
            final(self).l1.same_geometry(old(self).l1),
            final(self).l2.same_geometry(old(self).l2),
            final(self).l1@ == (if old(self).spec_l1_evicts(op, address) {
                old(self).l1@.update(
                    index1 as int,
                    evict_effect(old(self).l1@[index1 as int]),
                )
            } else {
                old(self).l1@
            }),
            old(self).spec_l1_evicts(op, address) ==> !all_valid(final(self).l1@[index1 as int]),
            forall|t: usize|
                !has_valid_tag(old(self).l1@[index1 as int], t) ==> !has_valid_tag(
                    final(self).l1@[index1 as int],
                    t,
                ),
            final(self).l2@ == old(self).spec_l2_mid(op, address),
            final(self).stats.l1_write_backs as int == old(self).stats.l1_write_backs as int + (
            if old(self).spec_writeback_owed(op, address) {
                1int
            } else {
                0
            }),
            final(self).stats.l2_writes as int == old(self).stats.l2_writes as int + (
            if old(self).spec_writeback_owed(op, address) && old(self).l2.spec_is_present() {
                1int
            } else {
                0
            }),
            final(self).stats.l2_write_misses as int == old(self).stats.l2_write_misses as int + (
            if old(self).spec_wb_misses(op, address) {
                1int
            } else {
                0
            }),
            final(self).stats.l2_write_backs as int == old(self).stats.l2_write_backs as int + old(
                self,
            ).spec_wb_evict_dirty(op, address),
            final(self).stats.total_memory_traffic as int == old(
                self,
            ).stats.total_memory_traffic as int + (if !old(self).l2.spec_is_present() {
                if old(self).spec_writeback_owed(op, address) {
                    1int
                } else {
                    0
                }
            } else if old(self).spec_wb_misses(op, address) {
                1 + old(self).spec_wb_evict_dirty(op, address)
            } else {
                0
            }),
            final(self).stats.l1_reads == old(self).stats.l1_reads,
            final(self).stats.l1_read_misses == old(self).stats.l1_read_misses,
            final(self).stats.l1_writes == old(self).stats.l1_writes,
            final(self).stats.l1_write_misses == old(self).stats.l1_write_misses,
            final(self).stats.l2_reads == old(self).stats.l2_reads,
            final(self).stats.l2_read_misses == old(self).stats.l2_read_misses,
            final(self).stats.l1_prefetches == old(self).stats.l1_prefetches,
            final(self).stats.l2_prefetches == old(self).stats.l2_prefetches,
            final(self).stats.l2_reads_from_l1_prefetch == old(
                self,
            ).stats.l2_reads_from_l1_prefetch,
            final(self).stats.l2_read_misses_from_l1_prefetch == old(
                self,
            ).stats.l2_read_misses_from_l1_prefetch,
    {
        if self.l1.set_is_full(index1) {
            let evicted = self.l1.evict_lru_block(index1);
            proof {
                lemma_evict_wf(old(self).l1@[index1 as int]);
                lemma_evict_not_full(old(self).l1@[index1 as int]);
            }
            if self.l2.is_present() {
                if evicted.evicted_block_was_dirty {
                    let (wb_tag, wb_index) = self.l2.decode(evicted.evicted_block_address);
                    let wb_outcome = self.l2.write(wb_index, wb_tag);
                    match wb_outcome {
                        HitOrMiss::MISS => {
                            self.stats.l2_write_misses = self.stats.l2_write_misses + 1;
                            if self.l2.set_is_full(wb_index) {
                                let l2_evicted = self.l2.evict_lru_block(wb_index);
                                proof {
                                    lemma_evict_wf(old(self).l2@[wb_index as int]);
                                    lemma_evict_not_full(old(self).l2@[wb_index as int]);
                                }
                                if l2_evicted.evicted_block_was_dirty {
                                    self.stats.l2_write_backs = self.stats.l2_write_backs + 1;
                                    self.stats.total_memory_traffic =
                                        self.stats.total_memory_traffic + 1;
                                }
                            }
                            proof {
                                lemma_no_tag_no_valid(old(self).l2@[wb_index as int], wb_tag);
                            }
                            let installed = self.l2.install(wb_index, wb_tag, address);
                            proof {
                                assert(installed is Ok);
                            }
                            self.stats.total_memory_traffic = self.stats.total_memory_traffic + 1;
                        },
                        HitOrMiss::HIT => {},
                    }
                    self.stats.l1_write_backs = self.stats.l1_write_backs + 1;
                    self.stats.l2_writes = self.stats.l2_writes + 1;
                }
            } else {
                if evicted.evicted_block_was_dirty {
                    self.stats.l1_write_backs = self.stats.l1_write_backs + 1;
                    self.stats.total_memory_traffic = self.stats.total_memory_traffic + 1;
                }
            }
        }
    }

    /// The fetch phase of an L1 miss: bring the line in through L2 when
    /// one exists (or straight from memory), install it into the L1 set,
    /// and perform the deferred write of a write access.
    fn fetch_phase(&mut self, op: Operation, address: usize, index1: usize, tag1: usize)
        requires
            old(self).wf(),
            (address as int) < 0x1_0000_0000,
            index1 as int == old(self).idx1(address),
            tag1 == old(self).tg1(address),
            !all_valid(old(self).l1@[index1 as int]),
            !has_valid_tag(old(self).l1@[index1 as int], tag1),
            old(self).stats.l1_reads as int + 2 <= usize::MAX as int,
            old(self).stats.l1_writes as int + 2 <= usize::MAX as int,
            old(self).stats.l2_reads as int + 2 <= usize::MAX as int,
            old(self).stats.l2_read_misses as int + 2 <= usize::MAX as int,
            old(self).stats.l2_write_backs as int + 2 <= usize::MAX as int,
            old(self).stats.total_memory_traffic as int + 2 <= usize::MAX as int,
        ensures
            final(self).wf(),
            final(self).l1.same_geometry(old(self).l1),
            final(self).l2.same_geometry(old(self).l2),
            final(self).l1@ == old(self).l1@.update(
                index1 as int,
                ({
                    let s2 = install_effect(old(self).l1@[index1 as int], tag1, address);
                    if op == Operation::Write {
                        write_effect(s2, tag1)
                    } else {
                        s2
                    }
                }),
            ),
            final(self).l2@ == (if old(self).l2.spec_is_present() {
                fetch_view(old(self).l2@, old(self).idx2(address), old(self).tg2(address), address)
            } else {
                old(self).l2@
            }),
            final(self).stats.l1_reads as int == old(self).stats.l1_reads as int + (
            if op == Operation::Read {
                1int
            } else {
                0
            }),
            final(self).stats.l1_writes as int == old(self).stats.l1_writes as int + (
            if op == Operation::Write {
                1int
            } else {
                0
            }),
            final(self).stats.l2_reads as int == old(self).stats.l2_reads as int + (
            if old(self).l2.spec_is_present() {
                1int
            } else {
                0
            }),
            final(self).stats.l2_read_misses as int == old(self).stats.l2_read_misses as int + (
            if old(self).l2.spec_is_present() && !has_valid_tag(
                old(self).l2@[old(self).idx2(address)],
                old(self).tg2(address),
            ) {
                1int
            } else {
                0
            }),
            final(self).stats.l2_write_backs as int == old(self).stats.l2_write_backs as int + (
            if old(self).l2.spec_is_present() && !has_valid_tag(
                old(self).l2@[old(self).idx2(address)],
                old(self).tg2(address),
            ) && all_valid(old(self).l2@[old(self).idx2(address)]) && evict_outcome(
                old(self).l2@[old(self).idx2(address)],
            ).1 {
                1int
            } else {
                0
            }),
            final(self).stats.total_memory_traffic as int == old(
                self,
            ).stats.total_memory_traffic as int + (if !old(self).l2.spec_is_present() {
                1int
            } else if !has_valid_tag(
                old(self).l2@[old(self).idx2(address)],
                old(self).tg2(address),
            ) {
                1 + (if all_valid(old(self).l2@[old(self).idx2(address)]) && evict_outcome(
                    old(self).l2@[old(self).idx2(address)],
                ).1 {
                    1int
                } else {
                    0
                })
            } else {
                0
            }),
            final(self).stats.l1_read_misses == old(self).stats.l1_read_misses,
            final(self).stats.l1_write_misses == old(self).stats.l1_write_misses,
            final(self).stats.l1_write_backs == old(self).stats.l1_write_backs,
            final(self).stats.l2_writes == old(self).stats.l2_writes,
            final(self).stats.l2_write_misses == old(self).stats.l2_write_misses,
            final(self).stats.l1_prefetches == old(self).stats.l1_prefetches,
            final(self).stats.l2_prefetches == old(self).stats.l2_prefetches,
            final(self).stats.l2_reads_from_l1_prefetch == old(
                self,
            ).stats.l2_reads_from_l1_prefetch,
            final(self).stats.l2_read_misses_from_l1_prefetch == old(
                self,
            ).stats.l2_read_misses_from_l1_prefetch,
    {
        if self.l2.is_present() {
            let (tag2, index2) = self.l2.decode(address);
            let l2_outcome = self.l2.read(index2, tag2);
            match l2_outcome {
                HitOrMiss::HIT => {
                    self.stats.l2_reads = self.stats.l2_reads + 1;
                    let ghost l1_pre_install = self.l1@[index1 as int];
                    let installed = self.l1.install(index1, tag1, address);
                    proof {
                        assert(installed is Ok);
                        lemma_install_has_tag(l1_pre_install, tag1, address);
                    }
                    match op {
                        Operation::Read => {
                            self.stats.l1_reads = self.stats.l1_reads + 1;
                        },
                        Operation::Write => {
                            let deferred = self.l1.write(index1, tag1);
                            proof {
                                assert(deferred == HitOrMiss::HIT);
                            }
                            self.stats.l1_writes = self.stats.l1_writes + 1;
                        },
                    }
                },
                HitOrMiss::MISS => {
                    self.stats.l2_read_misses = self.stats.l2_read_misses + 1;
                    if self.l2.set_is_full(index2) {
                        let l2_evicted = self.l2.evict_lru_block(index2);
                        proof {
                            lemma_evict_wf(old(self).l2@[index2 as int]);
                            lemma_evict_not_full(old(self).l2@[index2 as int]);
                        }
                        if l2_evicted.evicted_block_was_dirty {
                            self.stats.l2_write_backs = self.stats.l2_write_backs + 1;
                            self.stats.total_memory_traffic = self.stats.total_memory_traffic + 1;
                        }
                    }
                    let installed2 = self.l2.install(index2, tag2, address);
                    proof {
                        assert(installed2 is Ok);
                    }
                    self.stats.total_memory_traffic = self.stats.total_memory_traffic + 1;
                    self.stats.l2_reads = self.stats.l2_reads + 1;
                    let ghost l1_pre_install = self.l1@[index1 as int];
                    let installed1 = self.l1.install(index1, tag1, address);
                    proof {
                        assert(installed1 is Ok);
                        lemma_install_has_tag(l1_pre_install, tag1, address);
                    }
                    match op {
                        Operation::Read => {
                            self.stats.l1_reads = self.stats.l1_reads + 1;
                        },
                        Operation::Write => {
                            let deferred = self.l1.write(index1, tag1);
                            proof {
                                assert(deferred == HitOrMiss::HIT);
                            }
                            self.stats.l1_writes = self.stats.l1_writes + 1;
                        },
                    }
                },
            }
        } else {
            let ghost l1_pre_install = self.l1@[index1 as int];
            let installed = self.l1.install(index1, tag1, address);
            proof {
                assert(installed is Ok);
                lemma_install_has_tag(l1_pre_install, tag1, address);
            }
            match op {
                Operation::Write => {
                    let deferred = self.l1.write(index1, tag1);
                    proof {
                        assert(deferred == HitOrMiss::HIT);
                    }
                },
                Operation::Read => {},
            }
            self.stats.total_memory_traffic = self.stats.total_memory_traffic + 1;
            match op {
                Operation::Read => {
                    self.stats.l1_reads = self.stats.l1_reads + 1;
                },
                Operation::Write => {
                    self.stats.l1_writes = self.stats.l1_writes + 1;
                },
            }
        }
    }

    /// Drive one `(operation, address)` trace record through the
    /// hierarchy: L1 first; on a miss, evict-and-write-back, then fetch
    /// through L2 or main memory, install into L1, and count every
    /// hit, miss, write-back and memory transfer.
    #[verifier::rlimit(100)]
    pub fn process_access(&mut self, op: Operation, address: usize)
        requires
            old(self).wf(),
            old(self).stats_headroom(),
            (address as int) < 0x1_0000_0000,
        ensures
            final(self).wf(),
            final(self).l1.same_geometry(old(self).l1),
            final(self).l2.same_geometry(old(self).l2),
            final(self).l1@ == old(self).spec_l1_after(op, address),
            final(self).l2@ == old(self).spec_l2_after(op, address),
            final(self).stats.l1_reads as int == old(self).stats.l1_reads as int + (
            if op == Operation::Read {
                1int
            } else {
                0
            }),
            final(self).stats.l1_writes as int == old(self).stats.l1_writes as int + (
            if op == Operation::Write {
                1int
            } else {
                0
            }),
            final(self).stats.l1_read_misses as int == old(self).stats.l1_read_misses as int + (
            if op == Operation::Read && !old(self).spec_l1_hit(op, address) {
                1int
            } else {
                0
            }),
            final(self).stats.l1_write_misses as int == old(self).stats.l1_write_misses as int + (
            if op == Operation::Write && !old(self).spec_l1_hit(op, address) {
                1int
            } else {
                0
            }),
            final(self).stats.l1_write_backs as int == old(self).stats.l1_write_backs as int + (
            if old(self).spec_writeback_owed(op, address) {
                1int
            } else {
                0
            }),
            final(self).stats.l2_writes as int == old(self).stats.l2_writes as int + (
            if old(self).spec_writeback_owed(op, address) && old(self).l2.spec_is_present() {
                1int
            } else {
                0
            }),
            final(self).stats.l2_write_misses as int == old(self).stats.l2_write_misses as int + (
            if old(self).spec_wb_misses(op, address) {
                1int
            } else {
                0
            }),
            final(self).stats.l2_reads as int == old(self).stats.l2_reads as int + (
            if !old(self).spec_l1_hit(op, address) && old(self).l2.spec_is_present() {
                1int
            } else {
                0
            }),
            final(self).stats.l2_read_misses as int == old(self).stats.l2_read_misses as int + (
            if !old(self).spec_l1_hit(op, address) && old(self).l2.spec_is_present() && !old(
                self,
            ).spec_l2_read_hit(op, address) {
                1int
            } else {
                0
            }),
            final(self).stats.l2_write_backs as int == old(self).stats.l2_write_backs as int + old(
                self,
            ).spec_wb_evict_dirty(op, address) + old(self).spec_fetch_evict_dirty(op, address),
            final(self).stats.total_memory_traffic as int == old(
                self,
            ).stats.total_memory_traffic as int + old(self).spec_traffic_delta(op, address),
            final(self).stats.l1_prefetches == old(self).stats.l1_prefetches,
            final(self).stats.l2_prefetches == old(self).stats.l2_prefetches,
            final(self).stats.l2_reads_from_l1_prefetch == old(
                self,
            ).stats.l2_reads_from_l1_prefetch,
            final(self).stats.l2_read_misses_from_l1_prefetch == old(
                self,
            ).stats.l2_read_misses_from_l1_prefetch,
    {
        let (tag1, index1) = self.l1.decode(address);
        let l1_outcome = match op {
            Operation::Read => self.l1.read(index1, tag1),
            Operation::Write => self.l1.write(index1, tag1),
        };
        match l1_outcome {
            HitOrMiss::HIT => {
                match op {
                    Operation::Read => {
                        self.stats.l1_reads = self.stats.l1_reads + 1;
                    },
                    Operation::Write => {
                        self.stats.l1_writes = self.stats.l1_writes + 1;
                    },
                }
            },
            HitOrMiss::MISS => {
                match op {
                    Operation::Read => {
                        self.stats.l1_read_misses = self.stats.l1_read_misses + 1;
                    },
                    Operation::Write => {
                        self.stats.l1_write_misses = self.stats.l1_write_misses + 1;
                    },
                }
                proof {
                    if op == Operation::Write {
                        lemma_no_tag_no_valid(old(self).l1@[index1 as int], tag1);
                    }
                }
                self.write_back_phase(op, address, index1);
                self.fetch_phase(op, address, index1, tag1);
                proof {
                    assert(final(self).l1@ =~= old(self).spec_l1_after(op, address));
                    assert(final(self).l2@ == old(self).spec_l2_after(op, address));
                }
            },
        }
    }
}

} // verus!
