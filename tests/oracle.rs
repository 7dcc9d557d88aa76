use lease_cache_sim::lease_table::{ConfigError, LeaseEntry, LeaseTable, TraceItem, PROBABILITY_SCALE};
use lease_cache_sim::oracle::OraclePredictor;

#[test]
fn reuse_equal_to_lease_is_a_miss() {
    let mut o = OraclePredictor::new();
    assert!(!o.record(5, 5));
    assert!(o.record(4, 5));
    assert!(!o.record(6, 5));
    assert_eq!((o.hit_count(), o.miss_count(), o.total()), (1, 2, 3));
}

#[test]
fn oracle_with_certain_lease_equal_to_reuse_interval() {
    let mut table = LeaseTable::empty();
    table.insert(3, LeaseEntry { short_lease: 8, long_lease: 100, short_chance: PROBABILITY_SCALE });
    let mut o = OraclePredictor::new();
    for _ in 0..20 {
        assert_eq!(o.predict(&TraceItem::new(0, 3, 8), &table), Ok(false));
    }
    assert_eq!(o.predict(&TraceItem::new(0, 3, 7), &table), Ok(true));
    assert_eq!((o.hit_count(), o.miss_count(), o.total()), (1, 20, 21));
}

#[test]
fn oracle_draw_picks_short_or_long() {
    let mut table = LeaseTable::empty();
    table.insert(1, LeaseEntry { short_lease: 2, long_lease: 10, short_chance: 100 });
    let mut o = OraclePredictor::new();
    assert_eq!(o.predict_with_draw(&TraceItem::new(0, 1, 5), &table, 99), Ok(false));
    assert_eq!(o.predict_with_draw(&TraceItem::new(0, 1, 5), &table, 100), Ok(true));
    assert_eq!(o.total(), 2);
}

#[test]
fn oracle_counts_balance_and_ignore_order() {
    let mut table = LeaseTable::empty();
    table.insert(0, LeaseEntry { short_lease: 4, long_lease: 9, short_chance: 0 });
    table.insert(1, LeaseEntry { short_lease: 3, long_lease: 3, short_chance: 0 });
    let items: Vec<TraceItem> =
        (0..40u64).map(|i| TraceItem::new(i, i % 2, i % 12)).collect();
    let mut forward = OraclePredictor::new();
    for it in &items {
        forward.predict(it, &table).unwrap();
    }
    let mut backward = OraclePredictor::new();
    for it in items.iter().rev() {
        backward.predict(it, &table).unwrap();
    }
    assert_eq!(forward.hit_count() + forward.miss_count(), forward.total());
    assert_eq!(forward.total(), 40);
    assert_eq!(forward.miss_count(), backward.miss_count());
    assert_eq!(forward.hit_count(), backward.hit_count());
}

#[test]
fn oracle_unknown_reference_counts_nothing() {
    let table = LeaseTable::empty();
    let mut o = OraclePredictor::new();
    assert_eq!(
        o.predict(&TraceItem::new(0, 9, 1), &table),
        Err(ConfigError::UnknownReference { reference: 9 })
    );
    assert_eq!(o.total(), 0);
}
