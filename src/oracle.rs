//! The oracle predictor: classifies each access as a hit or a miss from its
//! reuse interval and a freshly drawn lease, without any cache state.

use crate::lease_table::{
    choose_lease, lease_for, ConfigError, LeaseTable, TraceItem, PROBABILITY_SCALE,
};
use crate::random::draw_below;
use vstd::prelude::*;

verus! {

/// An access hits when it comes back strictly before its lease runs out.
pub open spec fn predicts_hit(reuse_interval: u64, lease: u64) -> bool {
    reuse_interval < lease
}

/// The oracle's counters.
pub ghost struct OracleCounts {
    pub hits: nat,
    pub misses: nat,
    pub total: nat,
}

/// The counters after one more access with `reuse_interval` under `lease`.
pub open spec fn oracle_record(c: OracleCounts, reuse_interval: u64, lease: u64) -> OracleCounts {
    if predicts_hit(reuse_interval, lease) {
        OracleCounts { hits: c.hits + 1, misses: c.misses, total: c.total + 1 }
    } else {
        OracleCounts { hits: c.hits, misses: c.misses + 1, total: c.total + 1 }
    }
}

/// Every access is either a hit or a miss.
pub open spec fn oracle_ok(c: OracleCounts) -> bool {
    c.hits + c.misses == c.total
}

/// Counts predicted hits and misses over a run.
pub struct OraclePredictor {
    hits: u64,
    misses: u64,
    total: u64,
}

impl View for OraclePredictor {
    type V = OracleCounts;

    closed spec fn view(&self) -> OracleCounts {
        OracleCounts { hits: self.hits as nat, misses: self.misses as nat, total: self.total as nat }
    }
}

impl OraclePredictor {
    /// A predictor that has seen no access.
    pub fn new() -> (o: OraclePredictor)
        ensures
            o@ == (OracleCounts { hits: 0, misses: 0, total: 0 }),
            oracle_ok(o@),
    {
        OraclePredictor { hits: 0, misses: 0, total: 0 }
    }

    /// Classifies one access with `reuse_interval` under `lease`, and counts it.
    pub fn record(&mut self, reuse_interval: u64, lease: u64) -> (hit: bool)
        requires
            oracle_ok(old(self)@),
            old(self)@.total < u64::MAX,
        ensures
            hit == predicts_hit(reuse_interval, lease),
            final(self)@ == oracle_record(old(self)@, reuse_interval, lease),
            oracle_ok(final(self)@),
    {
        let hit = reuse_interval < lease;
        if hit {
            self.hits = self.hits + 1;
        } else {
            self.misses = self.misses + 1;
        }
        self.total = self.total + 1;
        hit
    }

    /// Classifies `item` under the lease that `draw` gives from its
    /// reference's entry. A reference missing from the table is an error and
    /// counts nothing.
    pub fn predict_with_draw(&mut self, item: &TraceItem, table: &LeaseTable, draw: u64) -> (r:
        Result<bool, ConfigError>)
        requires
            oracle_ok(old(self)@),
            old(self)@.total < u64::MAX,
        ensures
            oracle_ok(final(self)@),
            table@.contains_key(item.reference) ==> {
                let lease = lease_for(table@[item.reference], draw);
                &&& r == Ok::<bool, ConfigError>(predicts_hit(item.reuse_interval, lease))
                &&& final(self)@ == oracle_record(old(self)@, item.reuse_interval, lease)
            },
            !table@.contains_key(item.reference) ==> r == Err::<bool, ConfigError>(
                ConfigError::UnknownReference { reference: item.reference },
            ) && final(self)@ == old(self)@,
    {
        match table.query(&item.reference) {
            Some(entry) => {
                let lease = choose_lease(&entry, draw);
                Ok(self.record(item.reuse_interval, lease))
            },
            None => Err(ConfigError::UnknownReference { reference: item.reference }),
        }
    }

    /// Classifies `item` under a lease freshly drawn from its reference's entry.
    pub fn predict(&mut self, item: &TraceItem, table: &LeaseTable) -> (r: Result<bool, ConfigError>)
        requires
            oracle_ok(old(self)@),
            old(self)@.total < u64::MAX,
        ensures
            oracle_ok(final(self)@),
            table@.contains_key(item.reference) ==> exists|draw: u64|
                #![trigger lease_for(table@[item.reference], draw)]
                draw < PROBABILITY_SCALE && r == Ok::<bool, ConfigError>(
                    predicts_hit(item.reuse_interval, lease_for(table@[item.reference], draw)),
                ) && final(self)@ == oracle_record(
                    old(self)@,
                    item.reuse_interval,
                    lease_for(table@[item.reference], draw),
                ),
            !table@.contains_key(item.reference) ==> r == Err::<bool, ConfigError>(
                ConfigError::UnknownReference { reference: item.reference },
            ) && final(self)@ == old(self)@,
    {
        let draw = draw_below(PROBABILITY_SCALE);
        self.predict_with_draw(item, table, draw)
    }

    /// How many accesses were predicted to hit.
    pub fn hit_count(&self) -> (r: u64)
        ensures
            r == self@.hits,
    {
        self.hits
    }

    /// How many accesses were predicted to miss.
    pub fn miss_count(&self) -> (r: u64)
        ensures
            r == self@.misses,
    {
        self.misses
    }

    /// How many accesses were classified.
    pub fn total(&self) -> (r: u64)
        ensures
            r == self@.total,
    {
        self.total
    }
}

} // verus!
