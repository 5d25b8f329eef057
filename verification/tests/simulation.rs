use cache_sim::block::Block;
use cache_sim::cache::{Cache, HitOrMiss};
use cache_sim::controller::HierarchyController;
use cache_sim::statistics::Statistics;
use cache_sim::trace::{parse_trace_line, Operation};

fn controller(
    block_size: usize,
    l1_size: usize,
    l1_assoc: usize,
    l2_size: usize,
    l2_assoc: usize,
) -> HierarchyController {
    HierarchyController {
        l1: Cache::new(l1_size, l1_assoc, block_size),
        l2: Cache::new(l2_size, l2_assoc, block_size),
        stats: Statistics::new(),
    }
}

fn run(c: &mut HierarchyController, trace: &[&str]) {
    for line in trace {
        let bytes: Vec<u8> = line.as_bytes().to_vec();
        let (op, address) = parse_trace_line(&bytes).expect("malformed trace record");
        c.process_access(op, address);
    }
}

#[test]
fn new_block_is_empty() {
    let b = Block::new();
    assert_eq!(b.address, 0);
    assert_eq!(b.tag, 0);
    assert_eq!(b.lru, 0);
    assert!(!b.valid);
    assert!(!b.dirty);
}

#[test]
fn statistics_start_at_zero() {
    let s = Statistics::new();
    assert_eq!(s.l1_reads, 0);
    assert_eq!(s.l1_write_backs, 0);
    assert_eq!(s.l2_write_misses, 0);
    assert_eq!(s.total_memory_traffic, 0);
    assert_eq!(s.l1_prefetches, 0);
}

#[test]
fn geometry_of_a_two_way_kilobyte_cache() {
    let c = Cache::new(1024, 2, 32);
    assert_eq!(c.sets, 16);
    assert_eq!(c.index_bits, 4);
    assert_eq!(c.block_offset_bits, 5);
    assert_eq!(c.tag_bits, 23);
    assert_eq!(c.cache.len(), 16);
    assert_eq!(c.cache[0].len(), 2);
}

#[test]
fn zero_capacity_means_absent() {
    let c = Cache::new(0, 4, 32);
    assert!(!c.is_present());
    assert_eq!(c.sets, 0);
    assert_eq!(c.cache.len(), 0);
}

#[test]
fn decode_splits_tag_index_offset() {
    let c = Cache::new(1024, 2, 32);
    // 0x12345678 >> 5 = 0x91a2b3; index = low 4 bits = 3, tag = rest
    let (tag, index) = c.decode(0x12345678);
    assert_eq!(index, (0x12345678usize >> 5) & 0xf);
    assert_eq!(tag, 0x12345678usize >> 9);
}

#[test]
fn read_hits_only_valid_slots_and_write_ignores_validity() {
    let mut c = Cache::new(64, 2, 16);
    // cold set: a read of tag 0 misses, yet a write of tag 0 revives the
    // cold slot in place and counts as a hit
    assert_eq!(c.read(0, 0), HitOrMiss::MISS);
    assert_eq!(c.write(0, 0), HitOrMiss::HIT);
    assert!(c.cache[0][0].valid);
    assert!(c.cache[0][0].dirty);
    assert_eq!(c.read(0, 0), HitOrMiss::HIT);
}

#[test]
fn install_fills_the_first_invalid_slot() {
    let mut c = Cache::new(64, 2, 16);
    assert!(c.install(1, 7, 0x70).is_ok());
    assert!(c.cache[1][0].valid);
    assert_eq!(c.cache[1][0].tag, 7);
    assert_eq!(c.cache[1][0].address, 0x70);
    assert!(!c.cache[1][0].dirty);
    assert_eq!(c.cache[1][0].lru, 0);
    assert!(!c.set_is_full(1));
    assert!(c.install(1, 9, 0x90).is_ok());
    assert!(c.set_is_full(1));
}

#[test]
fn installing_into_a_full_set_is_refused() {
    let mut c = Cache::new(32, 1, 16);
    assert!(c.install(0, 3, 0x30).is_ok());
    assert!(c.install(0, 4, 0x40).is_err());
    // the refused install changed nothing
    assert_eq!(c.cache[0][0].tag, 3);
    assert!(c.cache[0][0].valid);
}

#[test]
fn eviction_takes_the_least_recently_touched_tag() {
    // associativity 2: install tags 5 and 6, touch 5 again, then the
    // victim must be 6, and the freed slot is immediately reusable
    let mut c = Cache::new(64, 2, 16);
    assert!(c.install(0, 5, 0x50).is_ok());
    assert!(c.install(0, 6, 0x60).is_ok());
    assert_eq!(c.read(0, 5), HitOrMiss::HIT);
    assert!(c.set_is_full(0));
    let evicted = c.evict_lru_block(0);
    assert_eq!(evicted.evicted_block_address, 0x60);
    assert!(!evicted.evicted_block_was_dirty);
    assert!(!c.set_is_full(0));
    assert!(c.install(0, 8, 0x80).is_ok());
    assert_eq!(c.read(0, 8), HitOrMiss::HIT);
    assert_eq!(c.read(0, 5), HitOrMiss::HIT);
}

#[test]
fn eviction_reports_the_dirty_bit_and_cleans_the_slot() {
    let mut c = Cache::new(32, 1, 16);
    assert!(c.install(1, 2, 0x30).is_ok());
    assert_eq!(c.write(1, 2), HitOrMiss::HIT);
    let evicted = c.evict_lru_block(1);
    assert!(evicted.evicted_block_was_dirty);
    assert_eq!(evicted.evicted_block_address, 0x30);
    assert!(!c.cache[1][0].valid);
    assert!(!c.cache[1][0].dirty);
}

#[test]
fn touching_the_mru_slot_changes_no_recency() {
    let mut c = Cache::new(64, 4, 16);
    for tag in 0..4usize {
        assert!(c.install(0, tag + 1, (tag + 1) * 0x40).is_ok());
    }
    let ranks_before: Vec<usize> = c.cache[0].iter().map(|b| b.lru).collect();
    // tag 4 sits in the most recently used slot already
    c.update_lru(0, 4);
    c.update_lru(0, 4);
    let ranks_after: Vec<usize> = c.cache[0].iter().map(|b| b.lru).collect();
    assert_eq!(ranks_before, ranks_after);
}

#[test]
fn dump_set_orders_by_ascending_recency() {
    let mut c = Cache::new(64, 2, 16);
    assert!(c.install(0, 5, 0x50).is_ok());
    assert!(c.install(0, 6, 0x60).is_ok());
    assert_eq!(c.write(0, 5), HitOrMiss::HIT);
    let dump = c.dump_set(0);
    assert_eq!(dump, vec![(5, true), (6, false)]);
}

#[test]
fn single_level_example_trace() {
    // configuration (block 32, L1 1024 two-way, no L2), trace r 0, r 0,
    // w 0x20: the first read is a cold miss, the second hits, and the
    // write to the different set revives the cold tag-0 slot in place,
    // so it counts as a write hit rather than a write miss
    let mut c = controller(32, 1024, 2, 0, 0);
    run(&mut c, &["r 00000000", "r 00000000", "w 00000020"]);
    assert_eq!(c.stats.l1_reads, 2);
    assert_eq!(c.stats.l1_read_misses, 1);
    assert_eq!(c.stats.l1_writes, 1);
    assert_eq!(c.stats.l1_write_misses, 0);
    assert_eq!(c.stats.total_memory_traffic, 1);
    assert_eq!(c.stats.l1_write_backs, 0);
}

#[test]
fn single_level_write_miss_installs_dirty() {
    // a write whose tag no slot bears is a write miss: the line is
    // fetched, installed, and the deferred write marks it dirty
    let mut c = controller(32, 1024, 2, 0, 0);
    run(&mut c, &["w 00000400"]);
    assert_eq!(c.stats.l1_writes, 1);
    assert_eq!(c.stats.l1_write_misses, 1);
    assert_eq!(c.stats.total_memory_traffic, 1);
    let (tag, index) = c.l1.decode(0x400);
    assert_eq!(c.l1.read(index, tag), HitOrMiss::HIT);
    assert!(c.l1.cache[index][0].dirty);
}

#[test]
fn dirty_victim_with_no_l2_goes_to_memory() {
    // direct-mapped 2-set L1: write 0x00 (revives cold slot, dirty),
    // then read 0x20 maps to the same set and evicts the dirty victim:
    // one unit of traffic for the write-back, one for the fill
    let mut c = controller(16, 32, 1, 0, 0);
    run(&mut c, &["w 00000000", "r 00000020"]);
    assert_eq!(c.stats.l1_writes, 1);
    assert_eq!(c.stats.l1_read_misses, 1);
    assert_eq!(c.stats.l1_write_backs, 1);
    assert_eq!(c.stats.total_memory_traffic, 2);
}

#[test]
fn dirty_victim_with_l2_triggers_one_l2_write() {
    let mut c = controller(16, 32, 1, 64, 2);
    run(&mut c, &["w 00000000", "r 00000020"]);
    // the dirty victim of the read's eviction is written back to L2
    assert_eq!(c.stats.l1_write_backs, 1);
    assert_eq!(c.stats.l2_writes, 1);
    // the victim's stale tag 0 is still borne by L2's cold slot, so the
    // write-back itself hits in L2 and moves no memory traffic
    assert_eq!(c.stats.l2_write_misses, 0);
    // the demand read of 0x20 misses in L2 and is filled from memory
    assert_eq!(c.stats.l2_reads, 1);
    assert_eq!(c.stats.l2_read_misses, 1);
    assert_eq!(c.stats.total_memory_traffic, 1);
}

#[test]
fn l2_hit_fills_l1_without_memory_traffic() {
    // L1 direct-mapped 2 sets, L2 four-way 1 set of 4: two reads to the
    // same L1 set evict each other but stay resident in L2
    let mut c = controller(16, 32, 1, 64, 4);
    run(&mut c, &["r 00000000", "r 00000020", "r 00000000"]);
    assert_eq!(c.stats.l1_read_misses, 3);
    assert_eq!(c.stats.l2_reads, 3);
    assert_eq!(c.stats.l2_read_misses, 2);
    // the third read finds its line in L2: no new memory traffic
    assert_eq!(c.stats.total_memory_traffic, 2);
    assert_eq!(c.stats.l1_reads, 3);
}

#[test]
fn parse_accepts_well_formed_records() {
    let line: Vec<u8> = b"r 1a2B".to_vec();
    let (op, address) = parse_trace_line(&line).unwrap();
    assert_eq!(op, Operation::Read);
    assert_eq!(address, 0x1a2b);
    let line: Vec<u8> = b"w ffffffff".to_vec();
    let (op, address) = parse_trace_line(&line).unwrap();
    assert_eq!(op, Operation::Write);
    assert_eq!(address, 0xffffffff);
    // anything after a second space is ignored
    let line: Vec<u8> = b"r 12 trailing".to_vec();
    let (_, address) = parse_trace_line(&line).unwrap();
    assert_eq!(address, 0x12);
}

#[test]
fn parse_rejects_malformed_records() {
    assert!(parse_trace_line(&b"x 12".to_vec()).is_err());
    assert!(parse_trace_line(&b"r12".to_vec()).is_err());
    assert!(parse_trace_line(&b"r ".to_vec()).is_err());
    assert!(parse_trace_line(&b"r 1g".to_vec()).is_err());
    assert!(parse_trace_line(&b"r".to_vec()).is_err());
    assert!(parse_trace_line(&b"".to_vec()).is_err());
    // one bit past the 32-bit address space
    assert!(parse_trace_line(&b"r 100000000".to_vec()).is_err());
}
