//! One cache level: a fixed grid of sets, each holding associativity-many
//! block slots, with read/write/install/evict operations keyed by a decoded
//! (set index, tag) pair, and the geometry derived from the declared
//! capacity, associativity and block size.

use vstd::prelude::*;
use crate::block::Block;
use crate::math::{pow2, is_pow2, log2, log2_floor, lemma_pow2_log2, lemma_pow2_le, lemma_pow2_mul,
    lemma_pow2_div, lemma_is_pow2_mul, lemma_pow2_32};
use crate::set::{set_wf, has_valid_tag, has_tag, all_valid, last_tag_index, first_tag_index,
    first_invalid_index, victim_index, touch_at, touch_effect, write_effect, install_effect,
    evict_effect, evict_outcome, lemma_last_tag_index_in_range, lemma_last_tag_take_step,
    lemma_first_tag_index, lemma_first_invalid_index, lemma_victim_is_max, lemma_touch_at_wf,
    lemma_evict_wf, victim_scan, lemma_victim_scan, lemma_revive_wf, lemma_mark_dirty_wf,
    lemma_install_slot_wf};

verus! {

/// A cache level. A `cache_size` of zero stands for an absent level; such a
/// level carries no sets and rejects no request because none may be issued
/// to it.
pub struct Cache {
    pub cache_size: usize,
    pub assoc: usize,
    pub block_size: usize,
    pub sets: usize,
    pub index_bits: usize,
    pub block_offset_bits: usize,
    pub tag_bits: usize,
    pub cache: Vec<Vec<Block>>,
}

/// The outcome of a read or write probe.
#[allow(non_camel_case_types)]
#[derive(Debug, PartialEq, Eq, Structural)]
pub enum HitOrMiss {
    HIT,
    MISS,
}

/// What an eviction reports: the victim line's address, and whether it was
/// dirty and so owes a write-back.
#[derive(Debug)]
pub struct EvictionResult {
    pub evicted_block_address: usize,
    pub evicted_block_was_dirty: bool,
}

/// Installing into a full set is a caller-side defect: the caller must
/// evict first.
#[derive(Debug)]
pub struct ReplacementInvariantViolation;

impl View for Cache {
    type V = Seq<Seq<Block>>;

    open spec fn view(&self) -> Seq<Seq<Block>> {
        Seq::new(self.cache@.len() as nat, |i: int| self.cache@[i]@)
    }
}

impl Cache {
    /// The level exists: only such a level may be accessed or decoded for.
    pub open spec fn spec_is_present(self) -> bool {
        self.cache_size != 0
    }

    /// The geometry fields agree with the declared capacity, associativity
    /// and block size; an absent level is all zero.
    pub open spec fn geometry_wf(self) -> bool {
        if self.cache_size == 0 {
            &&& self.assoc == 0
            &&& self.block_size == 0
            &&& self.sets == 0
            &&& self.index_bits == 0
            &&& self.block_offset_bits == 0
            &&& self.tag_bits == 0
            &&& self.cache@.len() == 0
        } else {
            &&& self.assoc >= 1
            &&& self.block_size >= 1
            &&& self.sets >= 1
            &&& self.sets as int == self.cache_size as int / (self.assoc as int * self.block_size as int)
            &&& self.block_size == pow2(self.block_offset_bits as nat)
            &&& self.sets == pow2(self.index_bits as nat)
            &&& self.index_bits + self.block_offset_bits <= 32
            &&& self.tag_bits == 32 - self.index_bits - self.block_offset_bits
            &&& self.cache@.len() == self.sets
        }
    }

    /// Every set has associativity-many slots and is well-formed.
    pub open spec fn sets_wf(self) -> bool {
        forall|i: int|
            0 <= i < self@.len() ==> (#[trigger] self@[i]).len() == self.assoc && set_wf(self@[i])
    }

    pub open spec fn wf(self) -> bool {
        self.geometry_wf() && self.sets_wf()
    }

    /// The scalar geometry of the level is untouched by an operation.
    pub open spec fn same_geometry(self, other: Cache) -> bool {
        &&& self.cache_size == other.cache_size
        &&& self.assoc == other.assoc
        &&& self.block_size == other.block_size
        &&& self.sets == other.sets
        &&& self.index_bits == other.index_bits
        &&& self.block_offset_bits == other.block_offset_bits
        &&& self.tag_bits == other.tag_bits
    }

    /// Whether this level exists (capacity not zero).
    pub fn is_present(&self) -> (r: bool)
        ensures
            r == self.spec_is_present(),
    {
        self.cache_size != 0
    }

    /// The set a 32-bit address maps to: the middle address bits, between
    /// the block offset below and the tag above.
    pub open spec fn spec_index_of(self, address: usize) -> usize {
        (((address as int) / (self.block_size as int)) % (self.sets as int)) as usize
    }

    /// The tag of a 32-bit address: its highest `tag_bits` bits, those
    /// above the set index and block offset.
    pub open spec fn spec_tag_of(self, address: usize) -> usize {
        ((address as int) / ((self.block_size as int) * (self.sets as int))) as usize
    }

    /// Create a level from its declared capacity, associativity and block
    /// size; a capacity of zero creates an absent level. The parameters
    /// must be powers of two that the geometry formulas are consistent
    /// for: the address width is 32 bits, so a level may span at most
    /// 2^32 bytes per way.
    pub fn new(cache_size: usize, assoc: usize, block_size: usize) -> (c: Cache)
        requires
            cache_size != 0 ==> {
                &&& is_pow2(cache_size as nat)
                &&& is_pow2(assoc as nat)
                &&& is_pow2(block_size as nat)
                &&& (assoc as int) * (block_size as int) <= cache_size as int
                &&& (cache_size as int) / (assoc as int) <= 0x1_0000_0000
            },
        ensures
            c.wf(),
            c.cache_size == cache_size,
            c.spec_is_present() == (cache_size != 0),
            cache_size != 0 ==> {
                &&& c.assoc == assoc
                &&& c.block_size == block_size
                &&& c.sets as int == cache_size as int / ((assoc as int) * (block_size as int))
                &&& c.index_bits == log2(c.sets as nat)
                &&& c.block_offset_bits == log2(block_size as nat)
                &&& c.tag_bits == 32 - c.index_bits - c.block_offset_bits
                &&& c@ == Seq::new(
                    c.sets as nat,
                    |i: int|
                        Seq::new(
                            assoc as nat,
                            |j: int|
                                Block {
                                    address: 0,
                                    tag: 0,
                                    lru: j as usize,
                                    valid: false,
                                    dirty: false,
                                },
                        ),
                )
            },
    {
        if cache_size == 0 {
            let c = Cache {
                cache_size: 0,
                assoc: 0,
                block_size: 0,
                sets: 0,
                index_bits: 0,
                block_offset_bits: 0,
                tag_bits: 0,
                cache: Vec::new(),
            };
            return c;
        }
        proof {
            lemma_is_pow2_mul(assoc as nat, block_size as nat);
            lemma_pow2_div(cache_size as nat, (assoc as nat) * (block_size as nat));
            assert(assoc as int <= (assoc as int) * (block_size as int)) by (nonlinear_arith)
                requires assoc >= 1, block_size >= 1,
            ;
            lemma_pow2_div(cache_size as nat, assoc as nat);
        }
        let denom = assoc * block_size;
        let sets = cache_size / denom;
        let index_bits = log2_floor(sets);
        let block_offset_bits = log2_floor(block_size);
        proof {
            lemma_pow2_log2(sets as nat);
            lemma_pow2_log2(block_size as nat);
            lemma_pow2_mul(index_bits as nat, block_offset_bits as nat);
            // sets * block_size spans one way: at most the 32-bit space
            let q = (cache_size as int) / (assoc as int);
            assert((sets as int) * (block_size as int) == q) by (nonlinear_arith)
                requires
                    assoc >= 1,
                    (sets as int) * ((assoc as int) * (block_size as int)) == cache_size as int,
                    q * (assoc as int) == cache_size as int,
            ;
            if index_bits + block_offset_bits > 32 {
                lemma_pow2_le(33, (index_bits + block_offset_bits) as nat);
                lemma_pow2_32();
                assert(false);
            }
        }
        let tag_bits = 32 - index_bits - block_offset_bits;
        let ghost target_set = Seq::new(
            assoc as nat,
            |j: int| Block { address: 0, tag: 0, lru: j as usize, valid: false, dirty: false },
        );
        let mut grid: Vec<Vec<Block>> = Vec::new();
        let mut i: usize = 0;
        while i < sets
            invariant
                i <= sets,
                grid@.len() == i,
                target_set == Seq::new(
                    assoc as nat,
                    |j: int| Block { address: 0, tag: 0, lru: j as usize, valid: false, dirty: false },
                ),
                forall|k: int| 0 <= k < i ==> (#[trigger] grid@[k])@ == target_set,
            decreases sets - i,
        {
            let mut one_set: Vec<Block> = Vec::new();
            let mut j: usize = 0;
            while j < assoc
                invariant
                    j <= assoc,
                    one_set@.len() == j,
                    forall|k: int|
                        0 <= k < j ==> #[trigger] one_set@[k] == (Block {
                            address: 0,
                            tag: 0,
                            lru: k as usize,
                            valid: false,
                            dirty: false,
                        }),
                decreases assoc - j,
            {
                let mut b = Block::new();
                b.lru = j;
                one_set.push(b);
                j = j + 1;
            }
            proof {
                assert(one_set@ =~= target_set);
            }
            grid.push(one_set);
            i = i + 1;
        }
        let c = Cache {
            cache_size,
            assoc,
            block_size,
            sets,
            index_bits,
            block_offset_bits,
            tag_bits,
            cache: grid,
        };
        proof {
            assert(c@ =~= Seq::new(sets as nat, |i: int| target_set));
            assert forall|k: int| 0 <= k < c@.len() implies (#[trigger] c@[k]).len() == c.assoc
                && set_wf(c@[k]) by {
                assert(c@[k] == target_set);
            }
        }
        c
    }

    /// Decode a 32-bit address against this level's geometry: the highest
    /// `tag_bits` bits form the tag and the next `index_bits` bits the set
    /// index, which the divisions by the power-of-two block size and set
    /// count extract bit-exactly. Only a present level may decode.
    pub fn decode(&self, address: usize) -> (r: (usize, usize))
        requires
            self.wf(),
            self.spec_is_present(),
            (address as int) < 0x1_0000_0000,
        ensures
            r.0 == self.spec_tag_of(address),
            r.1 == self.spec_index_of(address),
            r.1 < self.sets,
    {
        let line = address / self.block_size;
        let set_index = line % self.sets;
        let tag = line / self.sets;
        proof {
            vstd::arithmetic::div_mod::lemma_div_denominator(
                address as int,
                self.block_size as int,
                self.sets as int,
            );
        }
        (tag, set_index)
    }

    /// The `(tag, dirty)` pairs of set `index` ordered by ascending
    /// recency rank: entry 0 is the most recently used slot.
    pub fn dump_set(&self, index: usize) -> (r: Vec<(usize, bool)>)
        requires
            self.wf(),
            index < self.sets,
        ensures
            r@.len() == self.assoc,
            forall|i: int|
                0 <= i < self.assoc ==> r@[(#[trigger] self@[index as int][i]).lru as int] == (
                self@[index as int][i].tag,
                self@[index as int][i].dirty,
            ),
    {
        let assoc = self.assoc;
        let ghost s0 = self@[index as int];
        let mut r: Vec<(usize, bool)> = Vec::new();
        let mut i: usize = 0;
        while i < assoc
            invariant
                i <= assoc,
                r@.len() == i,
            decreases assoc - i,
        {
            r.push((0, false));
            i = i + 1;
        }
        let mut i: usize = 0;
        while i < assoc
            invariant
                self.wf(),
                index < self.sets,
                assoc == self.assoc,
                s0 == self@[index as int],
                s0.len() == assoc,
                i <= assoc,
                r@.len() == assoc,
                forall|k: int|
                    0 <= k < i ==> r@[(#[trigger] s0[k]).lru as int] == (s0[k].tag, s0[k].dirty),
            decreases assoc - i,
        {
            let b = self.cache[index][i];
            r.set(b.lru, (b.tag, b.dirty));
            i = i + 1;
        }
        r
    }

    /// Update the recency ranks of a set after an access to `tag`: the
    /// slot a forward scan for the tag settles on becomes most recently
    /// used and every slot that was more recent moves one step away, so
    /// the relative order of the untouched slots is kept.
    pub fn update_lru(&mut self, index: usize, tag: usize)
        requires
            old(self).wf(),
            index < old(self).sets,
        ensures
            final(self).wf(),
            final(self).same_geometry(*old(self)),
            final(self)@ == old(self)@.update(index as int, touch_effect(old(self)@[index as int], tag)),
    {
        let ghost s0 = self@[index as int];
        let assoc = self.assoc;
        proof {
            assert(self@[index as int] == self.cache@[index as int]@);
            lemma_last_tag_index_in_range(s0, tag);
        }
        // forward scan: the last slot bearing the tag wins, 0 when none does
        let mut new_mru_way: usize = 0;
        let mut i: usize = 0;
        while i < assoc
            invariant
                self == old(self),
                old(self).wf(),
                index < old(self).sets,
                assoc == old(self).assoc,
                s0 == self@[index as int],
                s0.len() == assoc,
                i <= assoc,
                new_mru_way as int == last_tag_index(s0.take(i as int), tag),
                new_mru_way <= i,
                new_mru_way < assoc || new_mru_way == 0,
            decreases assoc - i,
        {
            proof {
                lemma_last_tag_take_step(s0, tag, i as int);
            }
            if self.cache[index][i].tag == tag {
                new_mru_way = i;
            }
            i = i + 1;
        }
        proof {
            assert(s0.take(assoc as int) =~= s0);
            assert(new_mru_way as int == last_tag_index(s0, tag));
        }
        let ghost m = new_mru_way as int;
        let ghost t = touch_at(s0, m);
        // move every more-recent slot one step away
        let mut i: usize = 0;
        while i < assoc
            invariant
                old(self).wf(),
                index < old(self).sets,
                assoc == old(self).assoc,
                self.same_geometry(*old(self)),
                self.cache@.len() == old(self).cache@.len(),
                s0 == old(self)@[index as int],
                s0.len() == assoc,
                0 <= m < assoc,
                new_mru_way as int == m,
                t == touch_at(s0, m),
                i <= assoc,
                forall|k: int| 0 <= k < self.cache@.len() && k != index ==> #[trigger] self.cache@[k] == old(self).cache@[k],
                self@[index as int].len() == assoc,
                self@[index as int][m] == s0[m],
                forall|k: int| i <= k < assoc ==> #[trigger] self@[index as int][k] == s0[k],
                forall|k: int| 0 <= k < i && k != m ==> #[trigger] self@[index as int][k] == t[k],
            decreases assoc - i,
        {
            if i != new_mru_way && self.cache[index][i].lru < self.cache[index][new_mru_way].lru {
                let mut b = self.cache[index][i];
                b.lru = b.lru + 1;
                self.cache[index].set(i, b);
            }
            i = i + 1;
        }
        // the promoted slot becomes rank 0
        let mut b = self.cache[index][new_mru_way];
        b.lru = 0;
        self.cache[index].set(new_mru_way, b);
        proof {
            assert(self@[index as int] =~= t);
            assert(self@ =~= old(self)@.update(index as int, touch_effect(s0, tag)));
            lemma_touch_at_wf(s0, m);
            assert forall|k: int| 0 <= k < self@.len() implies (#[trigger] self@[k]).len()
                == self.assoc && set_wf(self@[k]) by {
                if k != index {
                    assert(self@[k] == old(self)@[k]);
                }
            }
        }
    }
    /// Try to read the block with `tag` from set `index`: a hit iff some
    /// valid slot holds the tag, and a hit promotes the scan's slot.
    pub fn read(&mut self, index: usize, tag: usize) -> (r: HitOrMiss)
        requires
            old(self).wf(),
            index < old(self).sets,
        ensures
            final(self).wf(),
            final(self).same_geometry(*old(self)),
            (r == HitOrMiss::HIT) == has_valid_tag(old(self)@[index as int], tag),
            r == HitOrMiss::HIT ==> final(self)@ == old(self)@.update(
                index as int,
                touch_effect(old(self)@[index as int], tag),
            ),
            r == HitOrMiss::MISS ==> *final(self) == *old(self),
    {
        let assoc = self.assoc;
        let ghost s0 = self@[index as int];
        let mut i: usize = 0;
        while i < assoc
            invariant
                *self == *old(self),
                old(self).wf(),
                index < old(self).sets,
                assoc == old(self).assoc,
                s0 == self@[index as int],
                s0.len() == assoc,
                i <= assoc,
                forall|k: int| 0 <= k < i ==> !((#[trigger] s0[k]).valid && s0[k].tag == tag),
            decreases assoc - i,
        {
            if self.cache[index][i].tag == tag && self.cache[index][i].valid {
                self.update_lru(index, tag);
                return HitOrMiss::HIT;
            }
            i = i + 1;
        }
        HitOrMiss::MISS
    }

    /// Try to write the block with `tag` in set `index`: a hit iff some
    /// slot holds the tag, valid or not. A hit revalidates the slot, marks
    /// it dirty and promotes the scan's slot; a write never installs.
    pub fn write(&mut self, index: usize, tag: usize) -> (r: HitOrMiss)
        requires
            old(self).wf(),
            index < old(self).sets,
        ensures
            final(self).wf(),
            final(self).same_geometry(*old(self)),
            (r == HitOrMiss::HIT) == has_tag(old(self)@[index as int], tag),
            r == HitOrMiss::HIT ==> final(self)@ == old(self)@.update(
                index as int,
                write_effect(old(self)@[index as int], tag),
            ),
            r == HitOrMiss::MISS ==> *final(self) == *old(self),
    {
        let assoc = self.assoc;
        let ghost s0 = self@[index as int];
        let mut i: usize = 0;
        while i < assoc
            invariant
                *self == *old(self),
                old(self).wf(),
                index < old(self).sets,
                assoc == old(self).assoc,
                s0 == self@[index as int],
                s0.len() == assoc,
                i <= assoc,
                forall|k: int| 0 <= k < i ==> (#[trigger] s0[k]).tag != tag,
            decreases assoc - i,
        {
            if self.cache[index][i].tag == tag {
                proof {
                    lemma_first_tag_index(s0, tag);
                    assert(first_tag_index(s0, tag) == i);
                    lemma_revive_wf(s0, i as int);
                }
                let ghost s1 = s0.update(
                    i as int,
                    Block {
                        address: s0[i as int].address,
                        tag: s0[i as int].tag,
                        lru: s0[i as int].lru,
                        valid: true,
                        dirty: s0[i as int].dirty,
                    },
                );
                let mut b = self.cache[index][i];
                b.valid = true;
                self.cache[index].set(i, b);
                proof {
                    assert(self@[index as int] =~= s1);
                    assert(self@ =~= old(self)@.update(index as int, s1));
                    assert forall|k: int| 0 <= k < self@.len() implies (#[trigger] self@[k]).len()
                        == self.assoc && set_wf(self@[k]) by {
                        if k != index {
                            assert(self@[k] == old(self)@[k]);
                        }
                    }
                }
                self.update_lru(index, tag);
                let ghost s2 = touch_effect(s1, tag);
                proof {
                    assert(self@[index as int] == s2);
                    lemma_mark_dirty_wf(s2, i as int);
                }
                proof {
                    assert(self@ == old(self)@.update(index as int, s1).update(
                        index as int, s2));
                    assert(self@ =~= old(self)@.update(index as int, s2));
                }
                let ghost pre2 = self@;
                let mut b2 = self.cache[index][i];
                b2.dirty = true;
                self.cache[index].set(i, b2);
                proof {
                    assert(b2 == (Block {
                        address: s2[i as int].address,
                        tag: s2[i as int].tag,
                        lru: s2[i as int].lru,
                        valid: s2[i as int].valid,
                        dirty: true,
                    }));
                    assert(self@.len() == pre2.len());
                    assert(forall|k: int|
                        0 <= k < pre2.len() && k != index ==> #[trigger] self@[k] == pre2[k]);
                    assert(self@[index as int] == pre2[index as int].update(i as int, b2));
                    assert(self@[index as int] =~= write_effect(s0, tag));
                    assert(self@ =~= old(self)@.update(index as int, write_effect(s0, tag)));
                    assert forall|k: int| 0 <= k < self@.len() implies (#[trigger] self@[k]).len()
                        == self.assoc && set_wf(self@[k]) by {
                        if k != index {
                            assert(self@[k] == old(self)@[k]);
                        }
                    }
                }
                return HitOrMiss::HIT;
            }
            i = i + 1;
        }
        HitOrMiss::MISS
    }

    /// Install the line `(tag, address)` into the first invalid slot of set
    /// `index` and promote it; installing into a full set is refused as a
    /// replacement-invariant violation and changes nothing.
    pub fn install(&mut self, index: usize, tag: usize, address: usize) -> (r: Result<
        (),
        ReplacementInvariantViolation,
    >)
        requires
            old(self).wf(),
            index < old(self).sets,
            !has_valid_tag(old(self)@[index as int], tag),
            (address as int) < 0x1_0000_0000,
        ensures
            final(self).wf(),
            final(self).same_geometry(*old(self)),
            (r is Ok) == !all_valid(old(self)@[index as int]),
            r is Ok ==> final(self)@ == old(self)@.update(
                index as int,
                install_effect(old(self)@[index as int], tag, address),
            ),
            r is Err ==> *final(self) == *old(self),
    {
        let assoc = self.assoc;
        let ghost s0 = self@[index as int];
        let mut i: usize = 0;
        while i < assoc
            invariant
                *self == *old(self),
                old(self).wf(),
                index < old(self).sets,
                assoc == old(self).assoc,
                s0 == self@[index as int],
                s0.len() == assoc,
                i <= assoc,
                !has_valid_tag(s0, tag),
                (address as int) < 0x1_0000_0000,
                forall|k: int| 0 <= k < i ==> (#[trigger] s0[k]).valid,
            decreases assoc - i,
        {
            if !self.cache[index][i].valid {
                proof {
                    assert(s0 == old(self)@[index as int]);
                    assert(!has_valid_tag(s0, tag));
                    lemma_first_invalid_index(s0);
                    assert(first_invalid_index(s0) == i);
                    lemma_install_slot_wf(s0, i as int, tag, address);
                }
                let ghost s1 = s0.update(
                    i as int,
                    Block { address: address, tag: tag, lru: s0[i as int].lru, valid: true, dirty: false },
                );
                let lru_here = self.cache[index][i].lru;
                let b = Block { address: address, tag: tag, lru: lru_here, valid: true, dirty: false };
                self.cache[index].set(i, b);
                proof {
                    assert(self@[index as int] =~= s1);
                    assert(self@ =~= old(self)@.update(index as int, s1));
                    assert forall|k: int| 0 <= k < self@.len() implies (#[trigger] self@[k]).len()
                        == self.assoc && set_wf(self@[k]) by {
                        if k != index {
                            assert(self@[k] == old(self)@[k]);
                        }
                    }
                }
                self.update_lru(index, tag);
                proof {
                    assert(self@ =~= old(self)@.update(index as int, install_effect(s0, tag, address)));
                }
                return Ok(());
            }
            i = i + 1;
        }
        Err(ReplacementInvariantViolation)
    }

    /// Whether every slot of set `index` is valid.
    pub fn set_is_full(&self, index: usize) -> (r: bool)
        requires
            self.wf(),
            index < self.sets,
        ensures
            r == all_valid(self@[index as int]),
    {
        let assoc = self.assoc;
        let ghost s0 = self@[index as int];
        let mut i: usize = 0;
        while i < assoc
            invariant
                self.wf(),
                index < self.sets,
                assoc == self.assoc,
                s0 == self@[index as int],
                s0.len() == assoc,
                i <= assoc,
                forall|k: int| 0 <= k < i ==> (#[trigger] s0[k]).valid,
            decreases assoc - i,
        {
            if !self.cache[index][i].valid {
                return false;
            }
            i = i + 1;
        }
        true
    }

    /// Evict the least recently used slot of set `index`: the first slot
    /// of strictly maximal recency rank is invalidated and cleaned, and
    /// its address and former dirty bit are reported.
    pub fn evict_lru_block(&mut self, index: usize) -> (r: EvictionResult)
        requires
            old(self).wf(),
            index < old(self).sets,
        ensures
            final(self).wf(),
            final(self).same_geometry(*old(self)),
            final(self)@ == old(self)@.update(index as int, evict_effect(old(self)@[index as int])),
            r.evicted_block_address == evict_outcome(old(self)@[index as int]).0,
            r.evicted_block_was_dirty == evict_outcome(old(self)@[index as int]).1,
            (r.evicted_block_address as int) < 0x1_0000_0000,
    {
        let assoc = self.assoc;
        let ghost s0 = self@[index as int];
        let mut block_to_evict_index: usize = 0;
        let mut lru_value: usize = 0;
        let mut i: usize = 0;
        while i < assoc
            invariant
                *self == *old(self),
                old(self).wf(),
                index < old(self).sets,
                assoc == old(self).assoc,
                s0 == self@[index as int],
                s0.len() == assoc,
                i <= assoc,
                block_to_evict_index as int == victim_scan(s0, i as int).0,
                lru_value == victim_scan(s0, i as int).1,
                block_to_evict_index < assoc || block_to_evict_index == 0,
            decreases assoc - i,
        {
            if self.cache[index][i].lru > lru_value {
                lru_value = self.cache[index][i].lru;
                block_to_evict_index = i;
            }
            i = i + 1;
        }
        proof {
            assert(block_to_evict_index as int == victim_index(s0));
            lemma_victim_is_max(s0);
            lemma_evict_wf(s0);
        }
        let mut b = self.cache[index][block_to_evict_index];
        let was_dirty = b.dirty;
        let address = b.address;
        b.valid = false;
        b.dirty = false;
        self.cache[index].set(block_to_evict_index, b);
        proof {
            assert(self@[index as int] =~= evict_effect(s0));
            assert(self@ =~= old(self)@.update(index as int, evict_effect(s0)));
            assert forall|k: int| 0 <= k < self@.len() implies (#[trigger] self@[k]).len()
                == self.assoc && set_wf(self@[k]) by {
                if k != index {
                    assert(self@[k] == old(self)@[k]);
                }
            }
        }
        EvictionResult { evicted_block_address: address, evicted_block_was_dirty: was_dirty }
    }
}

} // verus!
