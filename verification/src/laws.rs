//! The library-wide laws of the replacement algorithm and the hierarchy
//! policy, stated against the same models the operation contracts use.

use vstd::prelude::*;
use crate::block::Block;
use crate::controller::{HierarchyController, miss_fill};
use crate::trace::Operation;
use crate::set::{set_wf, lru_wf, has_valid_tag, has_tag, all_valid, touch_at,
    touch_effect, write_effect, install_effect, evict_effect, victim_index,
    first_invalid_index, first_tag_index, last_tag_index, lemma_victim_is_max,
    lemma_touch_at_wf, lemma_evict_wf, lemma_first_invalid_index, lemma_first_tag_index,
    lemma_last_tag_index_in_range, lemma_install_has_tag, lemma_no_tag_no_valid};

verus! {

// ---------------------------------------------------------------------------
// Idempotence of touching the most recently used slot.

/// Promoting a slot that is already most recently used changes nothing:
/// not the slot itself, and not any other slot's recency.
pub proof fn lemma_touch_idempotent(s: Seq<Block>, tag: usize)
    requires
        lru_wf(s),
        s.len() >= 1,
        s[last_tag_index(s, tag)].lru == 0,
    ensures
        touch_effect(s, tag) == s,
{
    lemma_last_tag_index_in_range(s, tag);
    assert(touch_effect(s, tag) =~= s);
}

/// `last_tag_index` looks only at tags.
proof fn lemma_last_tag_index_same_tags(s: Seq<Block>, t: Seq<Block>, tag: usize)
    requires
        s.len() == t.len(),
        forall|i: int| 0 <= i < s.len() ==> (#[trigger] s[i]).tag == t[i].tag,
    ensures
        last_tag_index(s, tag) == last_tag_index(t, tag),
    decreases s.len(),
{
    if s.len() > 0 {
        assert(forall|i: int|
            0 <= i < s.len() - 1 ==> (#[trigger] s.drop_last()[i]).tag == t.drop_last()[i].tag);
        lemma_last_tag_index_same_tags(s.drop_last(), t.drop_last(), tag);
    }
}

/// Touching the same tag twice equals touching it once.
pub proof fn lemma_touch_twice(s: Seq<Block>, tag: usize)
    requires
        lru_wf(s),
        s.len() >= 1,
    ensures
        touch_effect(touch_effect(s, tag), tag) == touch_effect(s, tag),
{
    lemma_last_tag_index_in_range(s, tag);
    let m = last_tag_index(s, tag);
    let t = touch_effect(s, tag);
    assert(forall|i: int| 0 <= i < s.len() ==> (#[trigger] t[i]).tag == s[i].tag);
    lemma_last_tag_index_same_tags(t, s, tag);
    assert(t[m].lru == 0);
    lemma_touch_at_wf(s, m);
    lemma_touch_idempotent(t, tag);
}

// ---------------------------------------------------------------------------
// The LRU oracle: ranks order the slots by the time of their last touch.

/// The set after a sequence of promotions, given by the promoted slots.
pub open spec fn touch_sequence(s: Seq<Block>, ws: Seq<int>) -> Seq<Block>
    decreases ws.len(),
{
    if ws.len() == 0 {
        s
    } else {
        touch_at(touch_sequence(s, ws.drop_last()), ws.last())
    }
}

pub open spec fn targets_ok(len: int, ws: Seq<int>) -> bool {
    forall|k: int| 0 <= k < ws.len() ==> 0 <= #[trigger] ws[k] < len
}

/// Slot `a` was touched, and after every touch of slot `b`.
pub open spec fn touched_after(ws: Seq<int>, a: int, b: int) -> bool {
    exists|k: int|
        0 <= k < ws.len() && ws[k] == a && (forall|l: int| k < l < ws.len() ==> ws[l] != b)
}

pub proof fn lemma_touch_sequence_wf(s: Seq<Block>, ws: Seq<int>)
    requires
        lru_wf(s),
        targets_ok(s.len() as int, ws),
    ensures
        lru_wf(touch_sequence(s, ws)),
        touch_sequence(s, ws).len() == s.len(),
    decreases ws.len(),
{
    if ws.len() > 0 {
        assert(targets_ok(s.len() as int, ws.drop_last()));
        lemma_touch_sequence_wf(s, ws.drop_last());
        if s.len() > 0 {
            lemma_touch_at_wf(touch_sequence(s, ws.drop_last()), ws.last());
        }
    }
}

/// The oracle law: after any sequence of touches, a slot touched more
/// recently than another carries the strictly smaller recency rank.
pub proof fn lemma_more_recent_lower_rank(s: Seq<Block>, ws: Seq<int>, a: int, b: int)
    requires
        lru_wf(s),
        targets_ok(s.len() as int, ws),
        0 <= a < s.len(),
        0 <= b < s.len(),
        a != b,
        touched_after(ws, a, b),
    ensures
        touch_sequence(s, ws)[a].lru < touch_sequence(s, ws)[b].lru,
    decreases ws.len(),
{
    let n = ws.len() as int;
    let k = choose|k: int|
        0 <= k < n && ws[k] == a && (forall|l: int| k < l < n ==> ws[l] != b);
    let w = ws.last();
    let prev = touch_sequence(s, ws.drop_last());
    assert(targets_ok(s.len() as int, ws.drop_last()));
    lemma_touch_sequence_wf(s, ws.drop_last());
    let t = touch_sequence(s, ws);
    assert(t == touch_at(prev, w));
    if w == a {
        assert(t[a].lru == 0);
        if prev[b].lru < prev[w].lru {
            assert(t[b].lru == prev[b].lru + 1);
        } else {
            assert(prev[b].lru != prev[w].lru);
            assert(t[b].lru == prev[b].lru);
            assert(prev[b].lru > prev[w].lru);
        }
    } else {
        assert(w != b) by {
            if k == n - 1 {
                assert(ws[k] == a);
            } else {
                assert(ws[n - 1] != b);
            }
        }
        assert(k < n - 1);
        assert(touched_after(ws.drop_last(), a, b)) by {
            assert(ws.drop_last()[k] == a);
            assert(forall|l: int|
                k < l < ws.drop_last().len() ==> #[trigger] ws.drop_last()[l] == ws[l]);
        }
        lemma_more_recent_lower_rank(s, ws.drop_last(), a, b);
        let la = prev[a].lru;
        let lb = prev[b].lru;
        let lw = prev[w].lru;
        if la < lw && lb < lw {
        } else if la < lw {
            assert(lb != lw);
        } else {
            assert(la != lw);
            assert(lb > la);
        }
    }
}

/// Eviction takes the slot of maximal rank, and that slot is the least
/// recently touched one: no other slot's last touch predates its own.
pub proof fn lemma_evicted_least_recently_touched(s: Seq<Block>, ws: Seq<int>, b: int)
    requires
        lru_wf(s),
        targets_ok(s.len() as int, ws),
        0 <= b < s.len(),
        b != victim_index(touch_sequence(s, ws)),
    ensures
        !touched_after(ws, victim_index(touch_sequence(s, ws)), b),
{
    let t = touch_sequence(s, ws);
    lemma_touch_sequence_wf(s, ws);
    lemma_victim_is_max(t);
    let v = victim_index(t);
    assert(t[b].lru <= t[v].lru);
    assert(t[b].lru != t[v].lru);
    if touched_after(ws, v, b) {
        lemma_more_recent_lower_rank(s, ws, v, b);
    }
}

// ---------------------------------------------------------------------------
// Eviction / install round trip.

/// Evicting from a full set frees exactly the victim's slot, and the
/// next install of a fresh tag reuses that very slot, valid, clean and
/// most recently used.
pub proof fn lemma_evict_then_install(s: Seq<Block>, tag: usize, address: usize)
    requires
        set_wf(s),
        s.len() >= 1,
        all_valid(s),
        !has_tag(s, tag),
        (address as int) < 0x1_0000_0000,
    ensures
        !all_valid(evict_effect(s)),
        first_invalid_index(evict_effect(s)) == victim_index(s),
        install_effect(evict_effect(s), tag, address)[victim_index(s)] == (Block {
            address: address,
            tag: tag,
            lru: 0,
            valid: true,
            dirty: false,
        }),
{
    lemma_victim_is_max(s);
    let v = victim_index(s);
    let e = evict_effect(s);
    lemma_evict_wf(s);
    assert(!e[v].valid);
    lemma_first_invalid_index(e);
    assert(forall|j: int| 0 <= j < v ==> (#[trigger] e[j]).valid);
    let f = first_invalid_index(e);
    assert(f == v) by {
        if f < v {
            assert(e[f].valid);
        }
    }
    let s1 = e.update(v, Block { address: address, tag: tag, lru: e[v].lru, valid: true, dirty: false });
    lemma_last_tag_index_in_range(s1, tag);
    let m = last_tag_index(s1, tag);
    assert(has_tag(s1, tag)) by {
        assert(s1[v].tag == tag);
    }
    assert(m == v) by {
        if m != v {
            assert(s1[m] == e[m] && e[m].tag == s[m].tag);
            assert(has_tag(s, tag)) by {
                assert(s[m].tag == tag);
            }
        }
    }
    assert(install_effect(e, tag, address) == touch_at(s1, v));
    assert(touch_at(s1, v)[v] == (Block {
        address: address,
        tag: tag,
        lru: 0,
        valid: true,
        dirty: false,
    }));
}

// ---------------------------------------------------------------------------
// Write-back propagation into main memory.

/// With no L2, an access's memory traffic is exactly one unit for the
/// miss fill plus exactly one more when (and only when) the eviction's
/// victim was dirty; an L1 hit moves no memory traffic at all.
pub proof fn lemma_writeback_propagation(c: HierarchyController, op: Operation, address: usize)
    requires
        c.wf(),
        !c.l2.spec_is_present(),
    ensures
        c.spec_traffic_delta(op, address) == (if c.spec_writeback_owed(op, address) {
            2int
        } else if !c.spec_l1_hit(op, address) {
            1int
        } else {
            0int
        }),
{
}

// ---------------------------------------------------------------------------
// Single-level residency.

/// Single-level residency: with no L2, an access hits iff its line is
/// already resident, leaves its own line resident, keeps every other
/// resident line resident unless the eviction victim bore it, and makes
/// no other line resident. Chained over a trace, a line is resident
/// exactly when some prior access installed it and no later eviction
/// claimed it. The hypothesis that the accessed tag is borne only by a
/// valid slot rules out a write reviving a stale or never-installed tag.
pub proof fn lemma_single_level_residency(
    c: HierarchyController,
    op: Operation,
    address: usize,
    t: usize,
)
    requires
        c.wf(),
        !c.l2.spec_is_present(),
        (address as int) < 0x1_0000_0000,
        has_tag(c.l1@[c.idx1(address)], c.tg1(address)) ==> has_valid_tag(
            c.l1@[c.idx1(address)],
            c.tg1(address),
        ),
    ensures
        c.spec_l1_hit(op, address) == has_valid_tag(c.l1@[c.idx1(address)], c.tg1(address)),
        has_valid_tag(c.spec_l1_after(op, address)[c.idx1(address)], c.tg1(address)),
        t != c.tg1(address) && has_valid_tag(c.l1@[c.idx1(address)], t) && !(c.spec_l1_evicts(
            op,
            address,
        ) && c.l1@[c.idx1(address)][victim_index(c.l1@[c.idx1(address)])].tag == t)
            ==> has_valid_tag(c.spec_l1_after(op, address)[c.idx1(address)], t),
        t != c.tg1(address) && !has_valid_tag(c.l1@[c.idx1(address)], t) ==> !has_valid_tag(
            c.spec_l1_after(op, address)[c.idx1(address)],
            t,
        ),
{
    let i = c.idx1(address);
    let tag = c.tg1(address);
    let s = c.l1@[i];
    assert(0 <= i < c.l1@.len() && s.len() == c.l1.assoc >= 1);
    let after = c.spec_l1_after(op, address)[i];
    if c.spec_l1_hit(op, address) {
        if op == Operation::Read {
            lemma_hit_read_residency(s, tag, t);
        } else {
            lemma_hit_write_residency(s, tag, t);
        }
    } else {
        lemma_miss_residency(s, tag, address, op, t);
    }
}

/// Residency under a read hit: promotion moves no validity and no tag.
proof fn lemma_hit_read_residency(s: Seq<Block>, tag: usize, t: usize)
    requires
        set_wf(s),
        s.len() >= 1,
        has_valid_tag(s, tag),
    ensures
        forall|u: usize| has_valid_tag(touch_effect(s, tag), u) == has_valid_tag(s, u),
{
    let a = touch_effect(s, tag);
    lemma_last_tag_index_in_range(s, tag);
    assert(forall|j: int|
        0 <= j < s.len() ==> (#[trigger] a[j]).tag == s[j].tag && a[j].valid == s[j].valid);
    assert forall|u: usize| has_valid_tag(a, u) == has_valid_tag(s, u) by {
        if has_valid_tag(s, u) {
            let j = choose|j: int| 0 <= j < s.len() && (#[trigger] s[j]).valid && s[j].tag == u;
            assert(a[j].valid && a[j].tag == u);
        }
        if has_valid_tag(a, u) {
            let j = choose|j: int| 0 <= j < a.len() && (#[trigger] a[j]).valid && a[j].tag == u;
            assert(s[j].valid && s[j].tag == u);
        }
    }
}

/// Residency under a write hit: only the accessed tag's slot can change
/// validity, and it only becomes valid.
proof fn lemma_hit_write_residency(s: Seq<Block>, tag: usize, t: usize)
    requires
        set_wf(s),
        s.len() >= 1,
        has_tag(s, tag),
    ensures
        has_valid_tag(write_effect(s, tag), tag),
        t != tag ==> has_valid_tag(write_effect(s, tag), t) == has_valid_tag(s, t),
{
    let a = write_effect(s, tag);
    lemma_first_tag_index(s, tag);
    let f = first_tag_index(s, tag);
    assert(forall|j: int| 0 <= j < s.len() ==> (#[trigger] a[j]).tag == s[j].tag);
    assert(forall|j: int| 0 <= j < s.len() && j != f ==> (#[trigger] a[j]).valid == s[j].valid);
    assert(a[f].valid && a[f].tag == tag);
    assert(has_valid_tag(a, tag)) by {
        assert(0 <= f < a.len() && a[f].valid && a[f].tag == tag);
    }
    if t != tag {
        if has_valid_tag(s, t) {
            let j = choose|j: int| 0 <= j < s.len() && (#[trigger] s[j]).valid && s[j].tag == t;
            assert(j != f);
            assert(a[j].valid && a[j].tag == t);
        }
        if has_valid_tag(a, t) {
            let j = choose|j: int| 0 <= j < a.len() && (#[trigger] a[j]).valid && a[j].tag == t;
            assert(j != f);
            assert(s[j].valid && s[j].tag == t);
        }
    }
}

/// Residency under a miss fill: the accessed line becomes resident in
/// the freed slot; every other line survives unless eviction claimed it.
proof fn lemma_miss_residency(s: Seq<Block>, tag: usize, address: usize, op: Operation, t: usize)
    requires
        set_wf(s),
        s.len() >= 1,
        !has_valid_tag(s, tag),
        (address as int) < 0x1_0000_0000,
        op == Operation::Write ==> !has_tag(s, tag),
    ensures
        has_valid_tag(miss_fill(s, tag, address, op), tag),
        t != tag && has_valid_tag(s, t) && !(all_valid(s) && s[victim_index(s)].tag == t)
            ==> has_valid_tag(miss_fill(s, tag, address, op), t),
        t != tag && !has_valid_tag(s, t) ==> !has_valid_tag(miss_fill(s, tag, address, op), t),
{
    let s1 = if all_valid(s) {
        evict_effect(s)
    } else {
        s
    };
    if all_valid(s) {
        lemma_evict_wf(s);
        lemma_victim_is_max(s);
        assert(!all_valid(s1)) by {
            assert(!s1[victim_index(s)].valid);
        }
    }
    lemma_first_invalid_index(s1);
    let f = first_invalid_index(s1);
    let s2 = install_effect(s1, tag, address);
    let su = s1.update(f, Block { address: address, tag: tag, lru: s1[f].lru, valid: true, dirty: false });
    lemma_last_tag_index_in_range(su, tag);
    assert(forall|j: int|
        0 <= j < su.len() ==> (#[trigger] s2[j]).tag == su[j].tag && s2[j].valid == su[j].valid);
    assert(s2[f].valid && s2[f].tag == tag);
    let a = miss_fill(s, tag, address, op);
    if op == Operation::Write {
        assert(a == write_effect(s2, tag));
        assert(has_tag(s2, tag)) by {
            assert(s2[f].tag == tag);
        }
        lemma_touch_at_wf(su, last_tag_index(su, tag));
        lemma_miss_write_wf(s, s1, su, tag, address);
        lemma_hit_write_residency(s2, tag, t);
    } else {
        assert(a == s2);
    }
    // the accessed line is resident
    assert(has_valid_tag(s2, tag)) by {
        assert(0 <= f < s2.len() && s2[f].valid && s2[f].tag == tag);
    }
    // other lines: validity at any slot other than f and the victim is unchanged
    if t != tag {
        if has_valid_tag(s, t) && !(all_valid(s) && s[victim_index(s)].tag == t) {
            let j = choose|j: int| 0 <= j < s.len() && (#[trigger] s[j]).valid && s[j].tag == t;
            assert(s1[j].valid && s1[j].tag == t) by {
                if all_valid(s) {
                    assert(j != victim_index(s));
                }
            }
            assert(j != f);
            assert(s2[j].valid && s2[j].tag == t);
            assert(has_valid_tag(s2, t));
        }
        if !has_valid_tag(s, t) {
            if has_valid_tag(s2, t) {
                let j = choose|j: int| 0 <= j < s2.len() && (#[trigger] s2[j]).valid && s2[j].tag == t;
                assert(j != f);
                assert(s1[j].valid && s1[j].tag == t);
                assert(s[j].valid && s[j].tag == t);
                assert(has_valid_tag(s, t));
            }
        }
    }
    if op == Operation::Write && t != tag {
        assert(has_valid_tag(a, t) == has_valid_tag(s2, t));
    }
}

/// The installed set of a write miss is well-formed, so the deferred
/// write's residency argument applies to it.
proof fn lemma_miss_write_wf(s: Seq<Block>, s1: Seq<Block>, su: Seq<Block>, tag: usize, address: usize)
    requires
        set_wf(s),
        s.len() >= 1,
        !has_tag(s, tag),
        (address as int) < 0x1_0000_0000,
        s1 == (if all_valid(s) {
            evict_effect(s)
        } else {
            s
        }),
        !all_valid(s1),
        su == s1.update(
            first_invalid_index(s1),
            Block {
                address: address,
                tag: tag,
                lru: s1[first_invalid_index(s1)].lru,
                valid: true,
                dirty: false,
            },
        ),
    ensures
        set_wf(install_effect(s1, tag, address)),
        has_tag(install_effect(s1, tag, address), tag),
{
    if all_valid(s) {
        lemma_evict_wf(s);
    }
    lemma_first_invalid_index(s1);
    assert(!has_tag(s1, tag)) by {
        if has_tag(s1, tag) {
            let j = choose|j: int| 0 <= j < s1.len() && (#[trigger] s1[j]).tag == tag;
            assert(s[j].tag == tag);
        }
    }
    lemma_no_tag_no_valid(s1, tag);
    crate::set::lemma_install_slot_wf(s1, first_invalid_index(s1), tag, address);
    lemma_last_tag_index_in_range(su, tag);
    lemma_touch_at_wf(su, last_tag_index(su, tag));
    lemma_install_has_tag(s1, tag, address);
}

} // verus!
