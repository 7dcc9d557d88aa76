use lease_cache_sim::cache::CacheBlock;
use lease_cache_sim::lru_sim::LRUCacheBlock;

#[test]
fn cache_block_prints_binary_parts_and_decimal_counts() {
    let b = CacheBlock { address: 5, tag: 2, set_index: 1, block_offset: 1, remaining_lease: 12, tenancy: 3 };
    assert_eq!(
        b.print(),
        "address: 101, tag: 10, set_index: 1, block_offset: 1, remaining_lease: 12, tenancy: 3"
    );
}

#[test]
fn zero_block_prints_zeros() {
    assert_eq!(
        CacheBlock::new().print(),
        "address: 0, tag: 0, set_index: 0, block_offset: 0, remaining_lease: 0, tenancy: 0"
    );
}

#[test]
fn largest_values_print_in_full() {
    let m = u64::MAX;
    let b = CacheBlock { address: m, tag: 0, set_index: 0, block_offset: 0, remaining_lease: m, tenancy: 0 };
    let text = b.print();
    assert!(text.starts_with(&format!("address: {:b},", m)));
    assert!(text.contains(&format!("remaining_lease: {},", m)));
}

#[test]
fn lru_block_prints_hex() {
    assert_eq!(LRUCacheBlock::new(255, 10).print(), "tag: ff, set_index: a, valid: true");
    let b = LRUCacheBlock { tag: 0, set_index: 0x1234abcd, valid: false };
    assert_eq!(b.print(), "tag: 0, set_index: 1234abcd, valid: false");
}
