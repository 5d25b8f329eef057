//! The mathematical model of one cache set: a sequence of block slots,
//! the predicates its operations are specified with, and the effect of
//! each operation on the sequence.
//!
//! The recency ranks of the slots of a well-formed set are pairwise
//! distinct and below the associativity, and a valid slot is always the
//! first slot bearing its tag, so at most one slot holds a given tag
//! while valid.

use vstd::prelude::*;
use crate::block::Block;

verus! {

/// Recency ranks are below the set's size and pairwise distinct.
pub open spec fn lru_wf(s: Seq<Block>) -> bool {
    &&& forall|i: int| 0 <= i < s.len() ==> (#[trigger] s[i]).lru < s.len()
    &&& forall|i: int, j: int|
        0 <= i < s.len() && 0 <= j < s.len() && i != j ==> (#[trigger] s[i]).lru != (
        #[trigger] s[j]).lru
}

/// A valid slot is the first slot bearing its tag; in particular at most
/// one slot holds a given tag while valid.
pub open spec fn valid_first(s: Seq<Block>) -> bool {
    forall|i: int, j: int|
        0 <= j < i < s.len() && (#[trigger] s[i]).valid ==> (#[trigger] s[j]).tag != s[i].tag
}

/// Every resident address fits the simulator's 32-bit address space.
pub open spec fn addresses_ok(s: Seq<Block>) -> bool {
    forall|i: int| 0 <= i < s.len() ==> ((#[trigger] s[i]).address as int) < 0x1_0000_0000
}

/// A well-formed set.
pub open spec fn set_wf(s: Seq<Block>) -> bool {
    lru_wf(s) && valid_first(s) && addresses_ok(s)
}

/// Some slot holds `tag` and is valid: a read hit.
pub open spec fn has_valid_tag(s: Seq<Block>, tag: usize) -> bool {
    exists|i: int| 0 <= i < s.len() && (#[trigger] s[i]).valid && s[i].tag == tag
}

/// Some slot holds `tag`, valid or not: a write hit.
pub open spec fn has_tag(s: Seq<Block>, tag: usize) -> bool {
    exists|i: int| 0 <= i < s.len() && (#[trigger] s[i]).tag == tag
}

/// Every slot is valid.
pub open spec fn all_valid(s: Seq<Block>) -> bool {
    forall|i: int| 0 <= i < s.len() ==> (#[trigger] s[i]).valid
}

/// The index a forward scan for `tag` leaves behind: the last slot bearing
/// `tag`, or 0 when none does. This is the slot the recency update promotes.
pub open spec fn last_tag_index(s: Seq<Block>, tag: usize) -> int
    decreases s.len(),
{
    if s.len() == 0 {
        0
    } else if s[s.len() - 1].tag == tag {
        s.len() - 1
    } else {
        last_tag_index(s.drop_last(), tag)
    }
}

/// The first slot at or after `i` bearing `tag`, or `s.len()` when none does.
pub open spec fn first_tag_index_from(s: Seq<Block>, tag: usize, i: int) -> int
    decreases s.len() - i,
{
    if i < 0 || i >= s.len() {
        s.len() as int
    } else if s[i].tag == tag {
        i
    } else {
        first_tag_index_from(s, tag, i + 1)
    }
}

/// The first slot bearing `tag`, or `s.len()` when none does.
pub open spec fn first_tag_index(s: Seq<Block>, tag: usize) -> int {
    first_tag_index_from(s, tag, 0)
}

/// The first invalid slot at or after `i`, or `s.len()` when none exists.
pub open spec fn first_invalid_from(s: Seq<Block>, i: int) -> int
    decreases s.len() - i,
{
    if i < 0 || i >= s.len() {
        s.len() as int
    } else if !s[i].valid {
        i
    } else {
        first_invalid_from(s, i + 1)
    }
}

/// The first invalid slot, or `s.len()` when the set is full.
pub open spec fn first_invalid_index(s: Seq<Block>) -> int {
    first_invalid_from(s, 0)
}

/// The running (index, value) pair of the eviction scan over the first `n`
/// slots: the first slot whose rank strictly exceeds the running maximum
/// wins, starting from index 0 and value 0.
pub open spec fn victim_scan(s: Seq<Block>, n: int) -> (int, usize)
    decreases n,
{
    if n <= 0 {
        (0int, 0usize)
    } else {
        let p = victim_scan(s, n - 1);
        if s[n - 1].lru > p.1 {
            (n - 1, s[n - 1].lru)
        } else {
            p
        }
    }
}

/// The slot eviction selects: the least recently used one.
pub open spec fn victim_index(s: Seq<Block>) -> int {
    victim_scan(s, s.len() as int).0
}

/// The set after promoting slot `m` to most recently used: `m` gets rank 0
/// and every slot whose rank was strictly below `m`'s old rank moves one
/// step away, so the relative order of the other slots is kept.
pub open spec fn touch_at(s: Seq<Block>, m: int) -> Seq<Block> {
    Seq::new(
        s.len(),
        |i: int|
            if i == m {
                Block { address: s[i].address, tag: s[i].tag, lru: 0, valid: s[i].valid, dirty: s[i].dirty }
            } else if s[i].lru < s[m].lru {
                Block {
                    address: s[i].address,
                    tag: s[i].tag,
                    lru: (s[i].lru + 1) as usize,
                    valid: s[i].valid,
                    dirty: s[i].dirty,
                }
            } else {
                s[i]
            },
    )
}

/// The effect of the recency update for `tag`: promote the slot the
/// forward scan for `tag` settles on.
pub open spec fn touch_effect(s: Seq<Block>, tag: usize) -> Seq<Block> {
    touch_at(s, last_tag_index(s, tag))
}

/// The effect of a write hit on `tag`: revalidate the first slot bearing
/// the tag, promote the scan's slot, then mark the first slot dirty.
pub open spec fn write_effect(s: Seq<Block>, tag: usize) -> Seq<Block> {
    let f = first_tag_index(s, tag);
    let s1 = s.update(
        f,
        Block { address: s[f].address, tag: s[f].tag, lru: s[f].lru, valid: true, dirty: s[f].dirty },
    );
    let s2 = touch_effect(s1, tag);
    s2.update(
        f,
        Block { address: s2[f].address, tag: s2[f].tag, lru: s2[f].lru, valid: s2[f].valid, dirty: true },
    )
}

/// The effect of installing a line: the first invalid slot receives the
/// tag and address, clean and valid, and is promoted.
pub open spec fn install_effect(s: Seq<Block>, tag: usize, address: usize) -> Seq<Block> {
    let f = first_invalid_index(s);
    let s1 = s.update(f, Block { address: address, tag: tag, lru: s[f].lru, valid: true, dirty: false });
    touch_effect(s1, tag)
}

/// The set after evicting the victim: it is invalidated and cleaned; its
/// tag, address and rank stay behind.
pub open spec fn evict_effect(s: Seq<Block>) -> Seq<Block> {
    let v = victim_index(s);
    s.update(v, Block { address: s[v].address, tag: s[v].tag, lru: s[v].lru, valid: false, dirty: false })
}

/// What eviction reports: the victim's address and dirty bit.
pub open spec fn evict_outcome(s: Seq<Block>) -> (usize, bool) {
    let v = victim_index(s);
    (s[v].address, s[v].dirty)
}

// ---------------------------------------------------------------------------
// Properties of the scan indices.

pub proof fn lemma_last_tag_index_in_range(s: Seq<Block>, tag: usize)
    requires
        s.len() >= 1,
    ensures
        0 <= last_tag_index(s, tag) < s.len(),
        has_tag(s, tag) ==> s[last_tag_index(s, tag)].tag == tag,
        has_tag(s, tag) ==> forall|j: int|
            last_tag_index(s, tag) < j < s.len() ==> (#[trigger] s[j]).tag != tag,
    decreases s.len(),
{
    if s.len() == 1 {
    } else if s[s.len() - 1].tag == tag {
    } else {
        lemma_last_tag_index_in_range(s.drop_last(), tag);
        assert(s.drop_last().len() == s.len() - 1);
        assert(forall|j: int| 0 <= j < s.len() - 1 ==> s.drop_last()[j] == s[j]);
        if has_tag(s, tag) {
            let w = choose|i: int| 0 <= i < s.len() && (#[trigger] s[i]).valid == s[i].valid && s[i].tag == tag;
            assert(has_tag(s.drop_last(), tag)) by {
                let i = choose|i: int| 0 <= i < s.len() && (#[trigger] s[i]).tag == tag;
                assert(i < s.len() - 1);
                assert(s.drop_last()[i].tag == tag);
            }
        }
    }
}

/// One forward step of the scan for the promoted slot.
pub proof fn lemma_last_tag_take_step(s: Seq<Block>, tag: usize, i: int)
    requires
        0 <= i < s.len(),
    ensures
        last_tag_index(s.take(i + 1), tag) == if s[i].tag == tag {
            i
        } else {
            last_tag_index(s.take(i), tag)
        },
{
    let t = s.take(i + 1);
    assert(t.len() == i + 1);
    assert(t[i] == s[i]);
    assert(t.drop_last() =~= s.take(i));
}

pub proof fn lemma_first_tag_index_from(s: Seq<Block>, tag: usize, i: int)
    requires
        0 <= i <= s.len(),
    ensures
        i <= first_tag_index_from(s, tag, i) <= s.len(),
        first_tag_index_from(s, tag, i) < s.len() ==> s[first_tag_index_from(s, tag, i)].tag == tag,
        forall|j: int| i <= j < first_tag_index_from(s, tag, i) ==> (#[trigger] s[j]).tag != tag,
        first_tag_index_from(s, tag, i) == s.len() ==> forall|j: int|
            i <= j < s.len() ==> (#[trigger] s[j]).tag != tag,
    decreases s.len() - i,
{
    if i < s.len() && s[i].tag != tag {
        lemma_first_tag_index_from(s, tag, i + 1);
    }
}

pub proof fn lemma_first_tag_index(s: Seq<Block>, tag: usize)
    ensures
        has_tag(s, tag) ==> {
            let f = first_tag_index(s, tag);
            &&& 0 <= f < s.len()
            &&& s[f].tag == tag
            &&& forall|j: int| 0 <= j < f ==> (#[trigger] s[j]).tag != tag
        },
        !has_tag(s, tag) ==> first_tag_index(s, tag) == s.len(),
{
    lemma_first_tag_index_from(s, tag, 0);
}

pub proof fn lemma_first_invalid_from(s: Seq<Block>, i: int)
    requires
        0 <= i <= s.len(),
    ensures
        i <= first_invalid_from(s, i) <= s.len(),
        first_invalid_from(s, i) < s.len() ==> !s[first_invalid_from(s, i)].valid,
        forall|j: int| i <= j < first_invalid_from(s, i) ==> (#[trigger] s[j]).valid,
        first_invalid_from(s, i) == s.len() ==> forall|j: int|
            i <= j < s.len() ==> (#[trigger] s[j]).valid,
    decreases s.len() - i,
{
    if i < s.len() && s[i].valid {
        lemma_first_invalid_from(s, i + 1);
    }
}

pub proof fn lemma_first_invalid_index(s: Seq<Block>)
    ensures
        all_valid(s) <==> first_invalid_index(s) == s.len(),
        !all_valid(s) ==> {
            let f = first_invalid_index(s);
            &&& 0 <= f < s.len()
            &&& !s[f].valid
            &&& forall|j: int| 0 <= j < f ==> (#[trigger] s[j]).valid
        },
{
    lemma_first_invalid_from(s, 0);
}

pub proof fn lemma_victim_scan(s: Seq<Block>, n: int)
    requires
        1 <= n <= s.len(),
    ensures
        0 <= victim_scan(s, n).0 < n,
        s[victim_scan(s, n).0].lru == victim_scan(s, n).1,
        forall|k: int| 0 <= k < n ==> (#[trigger] s[k]).lru <= victim_scan(s, n).1,
    decreases n,
{
    if n > 1 {
        lemma_victim_scan(s, n - 1);
    } else {
        assert(victim_scan(s, 0) == (0int, 0usize));
    }
}

/// Eviction selects a slot of maximal recency rank.
pub proof fn lemma_victim_is_max(s: Seq<Block>)
    requires
        s.len() >= 1,
    ensures
        0 <= victim_index(s) < s.len(),
        forall|k: int| 0 <= k < s.len() ==> (#[trigger] s[k]).lru <= s[victim_index(s)].lru,
{
    lemma_victim_scan(s, s.len() as int);
}

// ---------------------------------------------------------------------------
// Preservation of well-formedness.

/// Promotion keeps everything but ranks, and keeps the ranks well-formed.
pub proof fn lemma_touch_at_wf(s: Seq<Block>, m: int)
    requires
        lru_wf(s),
        0 <= m < s.len(),
    ensures
        lru_wf(touch_at(s, m)),
        valid_first(s) ==> valid_first(touch_at(s, m)),
        addresses_ok(s) ==> addresses_ok(touch_at(s, m)),
{
    let t = touch_at(s, m);
    assert(t[m].lru == 0);
    assert forall|i: int| 0 <= i < t.len() implies (#[trigger] t[i]).lru < t.len() by {
        if i != m && s[i].lru < s[m].lru {
            assert(s[m].lru < s.len());
        }
    }
    assert forall|i: int, j: int|
        0 <= i < t.len() && 0 <= j < t.len() && i != j implies (#[trigger] t[i]).lru != (
    #[trigger] t[j]).lru by {
        if i == m || j == m {
            let o = if i == m { j } else { i };
            assert(t[m].lru == 0);
            if s[o].lru < s[m].lru {
                assert(t[o].lru == s[o].lru + 1);
            } else {
                assert(s[o].lru != s[m].lru);
                assert(t[o].lru == s[o].lru);
                assert(s[o].lru > s[m].lru);
            }
        } else {
            if s[i].lru < s[m].lru && s[j].lru < s[m].lru {
            } else if s[i].lru < s[m].lru {
                assert(t[i].lru <= s[m].lru < t[j].lru || t[i].lru <= s[m].lru == s[j].lru);
                assert(s[j].lru != s[m].lru);
            } else if s[j].lru < s[m].lru {
                assert(s[i].lru != s[m].lru);
            }
        }
    }
}

/// Revalidating the first slot that bears a tag keeps the set well-formed.
pub proof fn lemma_revive_wf(s: Seq<Block>, f: int)
    requires
        set_wf(s),
        0 <= f < s.len(),
        forall|j: int| 0 <= j < f ==> (#[trigger] s[j]).tag != s[f].tag,
    ensures
        set_wf(
            s.update(
                f,
                Block {
                    address: s[f].address,
                    tag: s[f].tag,
                    lru: s[f].lru,
                    valid: true,
                    dirty: s[f].dirty,
                },
            ),
        ),
{
    let s1 = s.update(
        f,
        Block { address: s[f].address, tag: s[f].tag, lru: s[f].lru, valid: true, dirty: s[f].dirty },
    );
    assert forall|i: int, j: int|
        0 <= j < i < s1.len() && (#[trigger] s1[i]).valid implies (#[trigger] s1[j]).tag
        != s1[i].tag by {
        if i != f {
            assert(s[i].valid);
        }
    }
}

/// Setting a dirty bit keeps the set well-formed.
pub proof fn lemma_mark_dirty_wf(s: Seq<Block>, f: int)
    requires
        set_wf(s),
        0 <= f < s.len(),
    ensures
        set_wf(
            s.update(
                f,
                Block {
                    address: s[f].address,
                    tag: s[f].tag,
                    lru: s[f].lru,
                    valid: s[f].valid,
                    dirty: true,
                },
            ),
        ),
{
    let s1 = s.update(
        f,
        Block { address: s[f].address, tag: s[f].tag, lru: s[f].lru, valid: s[f].valid, dirty: true },
    );
    assert forall|i: int, j: int|
        0 <= j < i < s1.len() && (#[trigger] s1[i]).valid implies (#[trigger] s1[j]).tag
        != s1[i].tag by {
        assert(s[i].valid);
    }
}

/// Filling the first invalid slot with a tag no valid slot holds keeps the
/// set well-formed.
pub proof fn lemma_install_slot_wf(s: Seq<Block>, f: int, tag: usize, address: usize)
    requires
        set_wf(s),
        0 <= f < s.len(),
        !has_valid_tag(s, tag),
        forall|j: int| 0 <= j < f ==> (#[trigger] s[j]).valid,
        (address as int) < 0x1_0000_0000,
    ensures
        set_wf(s.update(f, Block { address: address, tag: tag, lru: s[f].lru, valid: true, dirty: false })),
{
    let s1 = s.update(f, Block { address: address, tag: tag, lru: s[f].lru, valid: true, dirty: false });
    assert forall|i: int, j: int|
        0 <= j < i < s1.len() && (#[trigger] s1[i]).valid implies (#[trigger] s1[j]).tag
        != s1[i].tag by {
        if i == f {
            assert(s[j].valid);
            if s[j].tag == tag {
                assert(has_valid_tag(s, tag));
            }
        } else {
            assert(s[i].valid);
            if j == f {
                if s[i].tag == tag {
                    assert(has_valid_tag(s, tag));
                }
            }
        }
    }
}

/// A tag borne by no slot is in particular borne by no valid slot.
pub proof fn lemma_no_tag_no_valid(s: Seq<Block>, tag: usize)
    requires
        !has_tag(s, tag),
    ensures
        !has_valid_tag(s, tag),
{
    if has_valid_tag(s, tag) {
        let i = choose|i: int| 0 <= i < s.len() && (#[trigger] s[i]).valid && s[i].tag == tag;
        assert(s[i].tag == tag);
    }
}

/// Eviction leaves the victim slot free for the next install.
pub proof fn lemma_evict_not_full(s: Seq<Block>)
    requires
        s.len() >= 1,
    ensures
        !all_valid(evict_effect(s)),
{
    lemma_victim_is_max(s);
    assert(!evict_effect(s)[victim_index(s)].valid);
}

/// The installed tag is resident afterwards.
pub proof fn lemma_install_has_tag(s: Seq<Block>, tag: usize, address: usize)
    requires
        s.len() >= 1,
        !all_valid(s),
    ensures
        has_tag(install_effect(s, tag, address), tag),
        install_effect(s, tag, address).len() == s.len(),
{
    lemma_first_invalid_index(s);
    let f = first_invalid_index(s);
    let s1 = s.update(f, Block { address: address, tag: tag, lru: s[f].lru, valid: true, dirty: false });
    assert(s1[f].tag == tag);
    lemma_last_tag_index_in_range(s1, tag);
    let r = install_effect(s, tag, address);
    assert(r[f].tag == s1[f].tag);
    assert(0 <= f < r.len() && r[f].tag == tag);
}

/// Evicting keeps the set well-formed, and removes no tag.
pub proof fn lemma_evict_wf(s: Seq<Block>)
    requires
        set_wf(s),
        s.len() >= 1,
    ensures
        set_wf(evict_effect(s)),
        evict_effect(s).len() == s.len(),
        forall|t: usize| has_tag(evict_effect(s), t) == has_tag(s, t),
        forall|t: usize| !has_valid_tag(s, t) ==> !has_valid_tag(evict_effect(s), t),
{
    lemma_victim_is_max(s);
    let e = evict_effect(s);
    assert forall|t: usize| has_tag(e, t) == has_tag(s, t) by {
        assert(forall|i: int| 0 <= i < s.len() ==> (#[trigger] e[i]).tag == s[i].tag);
        if has_tag(s, t) {
            let i = choose|i: int| 0 <= i < s.len() && (#[trigger] s[i]).tag == t;
            assert(e[i].tag == t);
        }
        if has_tag(e, t) {
            let i = choose|i: int| 0 <= i < e.len() && (#[trigger] e[i]).tag == t;
            assert(s[i].tag == t);
        }
    }
    assert forall|t: usize| !has_valid_tag(s, t) implies !has_valid_tag(e, t) by {
        if has_valid_tag(e, t) {
            let i = choose|i: int| 0 <= i < e.len() && (#[trigger] e[i]).valid && e[i].tag == t;
            assert(s[i].valid && s[i].tag == t);
        }
    }
}

} // verus!
