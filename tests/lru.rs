use lease_cache_sim::driver::run_lru_step;
use lease_cache_sim::lease_table::{ConfigError, TraceItem};
use lease_cache_sim::lru_sim::{LRUCache, LRUCacheBlock};

#[test]
fn lru_block_new_is_valid() {
    assert_eq!(LRUCacheBlock::new(9, 2), LRUCacheBlock { tag: 9, set_index: 2, valid: true });
}

#[test]
fn repeated_tag_misses_once_then_hits() {
    let mut c = LRUCache::new(8, 2, 4);
    for _ in 0..10 {
        c.access(0xabc, 1);
    }
    assert_eq!(c.miss_count(), 1);
    assert_eq!(c.set_tags(1), vec![0xabc]);
    assert!(c.set_tags(0).is_empty());
}

#[test]
fn lru_evicts_the_least_recently_used() {
    let mut c = LRUCache::new(2, 1, 2);
    c.access(1, 0);
    c.access(2, 0);
    c.access(1, 0);
    assert_eq!(c.set_tags(0), vec![1, 2]);
    c.access(3, 0);
    assert_eq!(c.set_tags(0), vec![3, 1]);
    assert_eq!(c.miss_count(), 3);
    c.access(2, 0);
    assert_eq!(c.miss_count(), 4);
    assert_eq!(c.set_tags(0), vec![2, 3]);
}

#[test]
fn lru_sets_never_exceed_their_ways() {
    let mut c = LRUCache::new(12, 3, 4);
    for i in 0..300u64 {
        c.access(i * 7 % 23, (i % 3) as usize);
        for s in 0..3 {
            assert!(c.set_tags(s).len() <= 4);
        }
    }
}

#[test]
fn same_tag_in_two_sets_is_two_entries() {
    let mut c = LRUCache::new(4, 2, 2);
    c.access(5, 0);
    c.access(5, 1);
    assert_eq!(c.miss_count(), 2);
    c.access(5, 0);
    c.access(5, 1);
    assert_eq!(c.miss_count(), 2);
}

#[test]
fn lru_step_uses_decomposed_set_index_and_tag() {
    // One offset bit and two index bits: 0b1101 and 0b1100 lie in the same
    // block (set 0b10, tag 1), so the second access hits.
    let mut c = LRUCache::new(8, 4, 2);
    run_lru_step(&mut c, &TraceItem::new(0b1101, 0, 0), 1, 2).unwrap();
    assert_eq!(c.set_tags(2), vec![1]);
    run_lru_step(&mut c, &TraceItem::new(0b1100, 0, 0), 1, 2).unwrap();
    assert_eq!(c.set_tags(2), vec![1]);
    assert_eq!(c.miss_count(), 1);
    run_lru_step(&mut c, &TraceItem::new(0b10101, 0, 0), 1, 2).unwrap();
    assert_eq!(c.set_tags(2), vec![2, 1]);
    assert_eq!(c.miss_count(), 2);
}

#[test]
fn lru_step_address_one_has_tag_zero() {
    let mut c = LRUCache::new(8, 2, 2);
    run_lru_step(&mut c, &TraceItem::new(1, 0, 0), 1, 1).unwrap();
    assert_eq!(c.set_tags(0), vec![0]);
}

#[test]
fn lru_step_errors() {
    let mut c = LRUCache::new(8, 2, 2);
    assert_eq!(
        run_lru_step(&mut c, &TraceItem::new(0b100, 0, 0), 0, 3),
        Err(ConfigError::SetIndexOutOfRange { set_index: 4, set_count: 2 })
    );
    assert_eq!(
        run_lru_step(&mut c, &TraceItem::new(0, 0, 0), 64, 1),
        Err(ConfigError::AddressWidthExceeded { offset_bits: 64, index_bits: 1 })
    );
    assert_eq!(c.miss_count(), 0);
}
