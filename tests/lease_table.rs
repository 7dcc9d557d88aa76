use lease_cache_sim::cache::CacheBlock;
use lease_cache_sim::lease_table::{
    assign_lease, build_block, choose_lease, init_cache_block, init_cache_block_with_draw, ConfigError,
    LeaseEntry, LeaseTable, TraceItem, PROBABILITY_SCALE,
};

#[test]
fn scale_is_two_to_the_fifty_third() {
    assert_eq!(PROBABILITY_SCALE, 1u64 << 53);
}

#[test]
fn query_finds_inserted_entries() {
    let mut t = LeaseTable::empty();
    let e = LeaseEntry { short_lease: 1, long_lease: 2, short_chance: 3 };
    assert_eq!(t.query(&5), None);
    t.insert(5, e);
    assert_eq!(t.query(&5), Some(e));
    let f = LeaseEntry { short_lease: 7, long_lease: 8, short_chance: 9 };
    t.insert(5, f);
    assert_eq!(t.query(&5), Some(f));
    assert_eq!(t.query(&6), None);
}

#[test]
fn choose_lease_compares_draw_with_chance() {
    let e = LeaseEntry { short_lease: 3, long_lease: 30, short_chance: 10 };
    assert_eq!(choose_lease(&e, 0), 3);
    assert_eq!(choose_lease(&e, 9), 3);
    assert_eq!(choose_lease(&e, 10), 30);
    assert_eq!(choose_lease(&e, PROBABILITY_SCALE - 1), 30);
}

#[test]
fn certain_short_lease_is_always_assigned() {
    let e = LeaseEntry { short_lease: 3, long_lease: 30, short_chance: PROBABILITY_SCALE };
    for _ in 0..1000 {
        assert_eq!(assign_lease(&e), 3);
    }
    let never = LeaseEntry { short_lease: 3, long_lease: 30, short_chance: 0 };
    for _ in 0..1000 {
        assert_eq!(assign_lease(&never), 30);
    }
}

#[test]
fn even_chance_gives_both_leases() {
    let e = LeaseEntry { short_lease: 3, long_lease: 30, short_chance: PROBABILITY_SCALE / 2 };
    let shorts = (0..2000).filter(|_| assign_lease(&e) == 3).count();
    assert!(shorts > 800 && shorts < 1200);
}

#[test]
fn init_cache_block_builds_the_block() {
    let mut t = LeaseTable::empty();
    t.insert(2, LeaseEntry { short_lease: 6, long_lease: 60, short_chance: PROBABILITY_SCALE });
    let item = TraceItem::new(0b1_0110_101, 2, 0);
    let b = init_cache_block(&item, 3, 4, &t);
    assert_eq!(
        b,
        CacheBlock {
            address: 0b1_0110_101,
            tag: 1,
            set_index: 0b0110,
            block_offset: 0b101,
            remaining_lease: 6,
            tenancy: 0
        }
    );
    let long = init_cache_block_with_draw(&item, 3, 4, &t, PROBABILITY_SCALE);
    assert_eq!(long.remaining_lease, 60);
}

#[test]
fn build_block_errors() {
    let t = LeaseTable::empty();
    let item = TraceItem::new(1, 2, 0);
    assert_eq!(build_block(&item, 3, 4, &t), Err(ConfigError::UnknownReference { reference: 2 }));
    assert_eq!(
        build_block(&item, 60, 5, &t),
        Err(ConfigError::AddressWidthExceeded { offset_bits: 60, index_bits: 5 })
    );
}

#[test]
fn build_block_matches_init_cache_block() {
    let mut t = LeaseTable::empty();
    t.insert(2, LeaseEntry { short_lease: 6, long_lease: 60, short_chance: PROBABILITY_SCALE });
    let item = TraceItem::new(0xff, 2, 0);
    assert_eq!(build_block(&item, 2, 2, &t), Ok(init_cache_block(&item, 2, 2, &t)));
}

#[test]
fn lease_entry_from_fields() {
    assert_eq!(
        LeaseEntry::from_fields("a", "1F", 5),
        Ok(LeaseEntry { short_lease: 10, long_lease: 31, short_chance: 5 })
    );
    assert_eq!(LeaseEntry::from_fields("a", "", 5), Err(ConfigError::MalformedField));
}
