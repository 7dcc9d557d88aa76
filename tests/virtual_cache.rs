use lease_cache_sim::cache::{Cache, CacheBlock};
use lease_cache_sim::driver::{run_trace_step, run_trace_virtual_step};
use lease_cache_sim::lease_table::{ConfigError, LeaseEntry, LeaseTable, TraceItem, PROBABILITY_SCALE};
use lease_cache_sim::virtual_cache::VirtualCache;

fn block(tag: u64, set_index: u64, lease: u64) -> CacheBlock {
    CacheBlock { address: tag, tag, set_index, block_offset: 0, remaining_lease: lease, tenancy: 0 }
}

#[test]
fn virtual_cache_never_evicts_for_room() {
    let mut cache = VirtualCache::new(1);
    for t in 0..50u64 {
        cache.update(block(t, 0, 100));
    }
    assert_eq!(cache.set_lines(0).len(), 50);
    assert_eq!(cache.miss_count(), 50);
    assert_eq!(cache.step(), 50);
}

#[test]
fn virtual_cache_hits_within_lease_and_misses_after() {
    let mut cache = VirtualCache::new(2);
    cache.update(block(5, 1, 3));
    cache.update(block(5, 1, 3));
    assert_eq!(cache.miss_count(), 1);
    cache.update(block(6, 0, 3));
    cache.update(block(6, 0, 3));
    cache.update(block(5, 1, 3));
    assert_eq!(cache.miss_count(), 3);
    assert_eq!(cache.step(), 5);
}

#[test]
fn virtual_new_has_the_sets_asked_for() {
    let cache = VirtualCache::new(3);
    assert_eq!(cache.set_count(), 3);
    assert_eq!(cache.step(), 0);
    assert_eq!(cache.miss_count(), 0);
}

#[test]
fn virtual_misses_at_most_physical_on_a_trace() {
    let mut table = LeaseTable::empty();
    for r in 0..4u64 {
        table.insert(r, LeaseEntry { short_lease: 3 + r * 2, long_lease: 50, short_chance: PROBABILITY_SCALE });
    }
    let mut physical = Cache::new(4, 2);
    let mut virt = VirtualCache::new(2);
    let mut x: u64 = 12345;
    for _ in 0..500 {
        x = x.wrapping_mul(6364136223846793005).wrapping_add(1442695040888963407);
        let addr = (x >> 33) % 24;
        let item = TraceItem::new(addr, addr % 4, 0);
        run_trace_step(&mut physical, &item, &table, 0, 1).unwrap();
        run_trace_virtual_step(&mut virt, &item, &table, 0, 1).unwrap();
        assert!(virt.miss_count() <= physical.miss_count());
        assert_eq!(virt.step(), physical.step());
    }
}

#[test]
fn set_index_out_of_range_is_an_error() {
    let mut table = LeaseTable::empty();
    table.insert(1, LeaseEntry { short_lease: 4, long_lease: 4, short_chance: 0 });
    let mut cache = VirtualCache::new(2);
    let r = run_trace_virtual_step(&mut cache, &TraceItem::new(0b110, 1, 0), &table, 1, 2);
    assert_eq!(r, Err(ConfigError::SetIndexOutOfRange { set_index: 3, set_count: 2 }));
    assert_eq!(cache.step(), 0);
    let mut physical = Cache::new(4, 2);
    let r = run_trace_step(&mut physical, &TraceItem::new(0b110, 1, 0), &table, 1, 2);
    assert_eq!(r, Err(ConfigError::SetIndexOutOfRange { set_index: 3, set_count: 2 }));
    assert_eq!(physical.step(), 0);
}

#[test]
fn unknown_reference_stops_the_step() {
    let table = LeaseTable::empty();
    let mut cache = VirtualCache::new(2);
    let r = run_trace_virtual_step(&mut cache, &TraceItem::new(0, 42, 0), &table, 0, 1);
    assert_eq!(r, Err(ConfigError::UnknownReference { reference: 42 }));
    assert_eq!(cache.step(), 0);
}

#[test]
fn too_wide_address_split_stops_the_step() {
    let mut table = LeaseTable::empty();
    table.insert(1, LeaseEntry { short_lease: 4, long_lease: 4, short_chance: 0 });
    let mut cache = Cache::new(4, 2);
    let r = run_trace_step(&mut cache, &TraceItem::new(0, 1, 0), &table, 40, 30);
    assert_eq!(r, Err(ConfigError::AddressWidthExceeded { offset_bits: 40, index_bits: 30 }));
    assert_eq!(cache.step(), 0);
}
