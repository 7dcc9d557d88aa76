use lease_cache_sim::cache::{Cache, CacheBlock};
use lease_cache_sim::driver::run_trace_step;
use lease_cache_sim::lease_table::{LeaseEntry, LeaseTable, TraceItem, PROBABILITY_SCALE};

fn block(tag: u64, set_index: u64, lease: u64) -> CacheBlock {
    CacheBlock { address: tag, tag, set_index, block_offset: 0, remaining_lease: lease, tenancy: 0 }
}

fn certain_table(reference: u64, lease: u64) -> LeaseTable {
    let mut table = LeaseTable::empty();
    table.insert(
        reference,
        LeaseEntry { short_lease: lease, long_lease: lease, short_chance: PROBABILITY_SCALE },
    );
    table
}

#[test]
fn new_block_is_all_zero() {
    let b = CacheBlock::new();
    assert_eq!(b, CacheBlock { address: 0, tag: 0, set_index: 0, block_offset: 0, remaining_lease: 0, tenancy: 0 });
}

#[test]
fn new_cache_has_empty_sets() {
    let c = Cache::new(8, 4);
    assert_eq!(c.set_count(), 4);
    assert_eq!(c.step(), 0);
    assert_eq!(c.miss_count(), 0);
    assert_eq!(c.forced_eviction_count(), 0);
    for i in 0..4 {
        assert!(c.set_lines(i).is_empty());
    }
}

#[test]
fn scenario_two_sets_of_two_lines_lease_two() {
    // capacity 4, 2 sets of 2 lines, offset_bits 0, index_bits 1; the one
    // reference always gets lease 2. Addresses 0, 2, 0, 4, 0 all fall in
    // set 0 (tags 0, 1, 0, 2, 0). A line with lease 2 counts down to 1 at
    // the next step and leaves before the lookup, so every access misses.
    let table = certain_table(7, 2);
    let mut cache = Cache::new(4, 2);
    let mut misses = Vec::new();
    for addr in [0u64, 2, 0, 4, 0] {
        let before = cache.miss_count();
        run_trace_step(&mut cache, &TraceItem::new(addr, 7, 0), &table, 0, 1).unwrap();
        misses.push(cache.miss_count() - before);
    }
    assert_eq!(misses, vec![1, 1, 1, 1, 1]);
    assert_eq!(cache.step(), 5);
    assert_eq!(cache.miss_count(), 5);
    assert_eq!(cache.forced_eviction_count(), 0);
    assert_eq!(cache.set_lines(0).len(), 1);
    let last = cache.set_lines(0)[0];
    assert_eq!((last.tag, last.remaining_lease, last.tenancy), (0, 2, 0));
    assert!(cache.set_lines(1).is_empty());
}

#[test]
fn scenario_lease_four_hits_and_forced_eviction() {
    // Same trace with lease 4: the third access hits, the fourth fills the
    // set and forces a line out; which one decides the fifth access.
    for (pick, fifth_hits) in [(0usize, false), (1usize, true)] {
        let mut cache = Cache::new(4, 2);
        let tags = [0u64, 1, 0, 2, 0];
        let mut hits = Vec::new();
        for t in tags {
            let before = cache.miss_count();
            cache.update_with_pick(block(t, 0, 4), pick);
            hits.push(cache.miss_count() == before);
        }
        assert_eq!(hits, vec![false, false, true, false, fifth_hits]);
        // At the fifth access the other line has run out, so the fifth miss
        // (if any) finds room.
        assert_eq!(cache.forced_eviction_count(), 1);
        assert_eq!(cache.step(), 5);
    }
}

#[test]
fn aging_counts_down_lease_and_up_tenancy() {
    let mut cache = Cache::new(4, 2);
    cache.update(block(1, 0, 5));
    cache.update(block(9, 1, 5));
    let line = cache.set_lines(0)[0];
    assert_eq!((line.tag, line.remaining_lease, line.tenancy), (1, 4, 1));
    cache.update(block(9, 1, 5));
    let line = cache.set_lines(0)[0];
    assert_eq!((line.remaining_lease, line.tenancy), (3, 2));
}

#[test]
fn hit_refreshes_lease_but_keeps_tenancy() {
    let mut cache = Cache::new(2, 1);
    cache.update(block(3, 0, 10));
    cache.update(block(3, 0, 20));
    assert_eq!(cache.miss_count(), 1);
    let line = cache.set_lines(0)[0];
    assert_eq!((line.remaining_lease, line.tenancy), (20, 1));
}

#[test]
fn admitted_line_starts_with_tenancy_zero() {
    let mut cache = Cache::new(2, 1);
    let mut b = block(3, 0, 10);
    b.tenancy = 99;
    cache.update(b);
    assert_eq!(cache.set_lines(0)[0].tenancy, 0);
}

#[test]
fn full_set_evicts_exactly_one_line() {
    let mut cache = Cache::new(2, 1);
    cache.update(block(1, 0, 100));
    cache.update(block(2, 0, 100));
    cache.update(block(3, 0, 100));
    assert_eq!(cache.forced_eviction_count(), 1);
    assert_eq!(cache.miss_count(), 3);
    let lines = cache.set_lines(0);
    assert_eq!(lines.len(), 2);
    assert_eq!(lines[1].tag, 3);
}

#[test]
fn single_line_set_always_evicts_the_resident() {
    let mut cache = Cache::new(1, 1);
    for t in 0..10u64 {
        cache.update(block(t, 0, 100));
    }
    assert_eq!(cache.forced_eviction_count(), 9);
    assert_eq!(cache.set_lines(0).len(), 1);
    assert_eq!(cache.set_lines(0)[0].tag, 9);
}

#[test]
fn pick_is_taken_modulo_the_set_size() {
    let mut cache = Cache::new(3, 1);
    for t in 0..3u64 {
        cache.update_with_pick(block(t, 0, 100), 0);
    }
    cache.update_with_pick(block(7, 0, 100), 4);
    let tags: Vec<u64> = cache.set_lines(0).iter().map(|b| b.tag).collect();
    assert_eq!(tags, vec![0, 2, 7]);
}

#[test]
fn counters_stay_ordered_over_a_run() {
    let mut cache = Cache::new(4, 2);
    for i in 0..200u64 {
        cache.update(block(i % 7, i % 2, 1 + i % 5));
        assert!(cache.miss_count() <= cache.step());
        assert!(cache.forced_eviction_count() <= cache.miss_count());
        assert!(cache.set_lines(0).len() <= 2 && cache.set_lines(1).len() <= 2);
    }
    assert_eq!(cache.step(), 200);
}

#[test]
fn lines_with_lease_one_or_zero_leave_at_once() {
    let mut cache = Cache::new(4, 1);
    cache.update(block(1, 0, 1));
    cache.update(block(2, 0, 0));
    cache.update(block(3, 0, 3));
    let tags: Vec<u64> = cache.set_lines(0).iter().map(|b| b.tag).collect();
    assert_eq!(tags, vec![3]);
}
