//! Lease assignment: the table of leases per reference, the draw between the
//! short and the long lease, and the blocks built from trace records.

use crate::address::{decompose_address, parts_of, widths_fit};
use crate::cache::CacheBlock;
use crate::random::draw_below;
use std::collections::HashMap;
use vstd::prelude::*;

verus! {

broadcast use vstd::std_specs::hash::group_hash_axioms;

/// The number of equally likely outcomes of one lease draw. A probability
/// `p` of the short lease stands as the chance `ceil(p * 2^53)`:
/// a draw below the chance gives the short lease.
pub const PROBABILITY_SCALE: u64 = 0x20_0000_0000_0000;

/// How a reference is leased: a short and a long lease, and the chance, out
/// of `PROBABILITY_SCALE`, of the short one.
#[derive(Clone, Copy, Debug, PartialEq, Eq, Structural)]
pub struct LeaseEntry {
    pub short_lease: u64,
    pub long_lease: u64,
    pub short_chance: u64,
}

/// The lease that `draw` gives under `entry`.
pub open spec fn lease_for(entry: LeaseEntry, draw: u64) -> u64 {
    if draw < entry.short_chance {
        entry.short_lease
    } else {
        entry.long_lease
    }
}

/// The lease that `draw` gives under `entry`.
pub fn choose_lease(entry: &LeaseEntry, draw: u64) -> (lease: u64)
    ensures
        lease == lease_for(*entry, draw),
{
    if draw < entry.short_chance {
        entry.short_lease
    } else {
        entry.long_lease
    }
}

/// A fresh lease for one access, drawn anew on every call.
pub fn assign_lease(entry: &LeaseEntry) -> (lease: u64)
    ensures
        exists|draw: u64| draw < PROBABILITY_SCALE && lease == lease_for(*entry, draw),
        lease == entry.short_lease || lease == entry.long_lease,
{
    let draw = draw_below(PROBABILITY_SCALE);
    choose_lease(entry, draw)
}

/// What went wrong with a run's configuration or input.
#[derive(Clone, Copy, Debug, PartialEq, Eq, Structural)]
pub enum ConfigError {
    /// A trace names a reference that the lease table lacks.
    UnknownReference { reference: u64 },
    /// The offset and index widths together exceed the 64 bits of an address.
    AddressWidthExceeded { offset_bits: u64, index_bits: u64 },
    /// A block names a set that the cache does not have.
    SetIndexOutOfRange { set_index: u64, set_count: u64 },
    /// A field of a trace or lease-table record is not a number.
    MalformedField,
}

/// The lease of every reference.
pub struct LeaseTable {
    table: HashMap<u64, LeaseEntry>,
}

impl View for LeaseTable {
    type V = Map<u64, LeaseEntry>;

    closed spec fn view(&self) -> Map<u64, LeaseEntry> {
        self.table@
    }
}

impl LeaseTable {
    /// A table with no entry.
    pub fn empty() -> (t: LeaseTable)
        ensures
            t@ == Map::<u64, LeaseEntry>::empty(),
    {
        LeaseTable { table: HashMap::new() }
    }

    /// Sets the entry of `reference`, replacing any earlier one.
    pub fn insert(&mut self, reference: u64, entry: LeaseEntry)
        ensures
            final(self)@ == old(self)@.insert(reference, entry),
    {
        self.table.insert(reference, entry);
    }

    /// The entry of `reference`, if the table has one.
    pub fn query(&self, reference: &u64) -> (r: Option<LeaseEntry>)
        ensures
            r == (if self@.contains_key(*reference) {
                Some(self@[*reference])
            } else {
                None::<LeaseEntry>
            }),
    {
        match self.table.get(reference) {
            Some(entry) => Some(*entry),
            None => None,
        }
    }
}

/// One access of a trace.
#[derive(Clone, Copy, Debug, PartialEq, Eq, Structural)]
pub struct TraceItem {
    pub access_tag: u64,
    pub reference: u64,
    pub reuse_interval: u64,
}

impl TraceItem {
    pub fn new(access_tag: u64, reference: u64, reuse_interval: u64) -> (t: TraceItem)
        ensures
            t == (TraceItem { access_tag, reference, reuse_interval }),
    {
        TraceItem { access_tag, reference, reuse_interval }
    }
}

/// The block that an access becomes, with `lease` as its countdown.
pub open spec fn block_for(input: TraceItem, offset_bits: u64, index_bits: u64, lease: u64) -> CacheBlock {
    let parts = parts_of(input.access_tag, offset_bits as nat, index_bits as nat);
    CacheBlock {
        address: input.access_tag,
        tag: parts.tag,
        set_index: parts.set_index,
        block_offset: parts.block_offset,
        remaining_lease: lease,
        tenancy: 0,
    }
}

/// What building the block of `input` yields when the lease draw is `draw`.
pub open spec fn block_result(
    input: TraceItem,
    offset_bits: u64,
    index_bits: u64,
    table: Map<u64, LeaseEntry>,
    draw: u64,
) -> Result<CacheBlock, ConfigError> {
    if !widths_fit(offset_bits, index_bits) {
        Err(ConfigError::AddressWidthExceeded { offset_bits, index_bits })
    } else if !table.contains_key(input.reference) {
        Err(ConfigError::UnknownReference { reference: input.reference })
    } else {
        Ok(block_for(input, offset_bits, index_bits, lease_for(table[input.reference], draw)))
    }
}

/// The block of `input`, with the lease that `draw` gives under the entry of
/// its reference. A reference missing from the table, or widths beyond the
/// 64 bits of an address, are errors of the run's configuration that the
/// caller rules out first.
pub fn init_cache_block_with_draw(
    input: &TraceItem,
    offset: u64,
    set: u64,
    table: &LeaseTable,
    draw: u64,
) -> (r: CacheBlock)
    requires
        widths_fit(offset, set),
        table@.contains_key(input.reference),
    ensures
        r == block_for(*input, offset, set, lease_for(table@[input.reference], draw)),
{
    let parts = decompose_address(input.access_tag, offset, set).unwrap();
    let entry = table.query(&input.reference).unwrap();
    CacheBlock {
        address: input.access_tag,
        tag: parts.tag,
        set_index: parts.set_index,
        block_offset: parts.block_offset,
        remaining_lease: choose_lease(&entry, draw),
        tenancy: 0,
    }
}

/// The block of `input`: its address decomposed, and a lease freshly drawn
/// from the entry of its reference.
pub fn init_cache_block(input: &TraceItem, offset: u64, set: u64, table: &LeaseTable) -> (r:
    CacheBlock)
    requires
        widths_fit(offset, set),
        table@.contains_key(input.reference),
    ensures
        exists|draw: u64|
            #![trigger lease_for(table@[input.reference], draw)]
            draw < PROBABILITY_SCALE && r == block_for(
                *input,
                offset,
                set,
                lease_for(table@[input.reference], draw),
            ),
{
    let draw = draw_below(PROBABILITY_SCALE);
    init_cache_block_with_draw(input, offset, set, table, draw)
}

/// The block of `input`, or the configuration error that stops the run: the
/// widths are checked first, then the reference.
pub fn build_block(input: &TraceItem, offset: u64, set: u64, table: &LeaseTable) -> (r: Result<
    CacheBlock,
    ConfigError,
>)
    ensures
        exists|draw: u64|
            draw < PROBABILITY_SCALE && r == #[trigger] block_result(*input, offset, set, table@, draw),
{
    if offset > 64 || set > 64 - offset {
        let r = Err(ConfigError::AddressWidthExceeded { offset_bits: offset, index_bits: set });
        assert(r == block_result(*input, offset, set, table@, 0));
        return r;
    }
    if table.query(&input.reference).is_none() {
        let r = Err(ConfigError::UnknownReference { reference: input.reference });
        assert(r == block_result(*input, offset, set, table@, 0));
        return r;
    }
    let block = init_cache_block(input, offset, set, table);
    let ghost draw = choose|draw: u64|
        draw < PROBABILITY_SCALE && block == block_for(
            *input,
            offset,
            set,
            lease_for(table@[input.reference], draw),
        );
    assert(block_result(*input, offset, set, table@, draw) == Ok::<CacheBlock, ConfigError>(block));
    Ok(block)
}

} // verus!
