//! One trace record at a time through each simulated cache: build the
//! block, check that its set exists, and hand it over.

use crate::address::{decompose_address, parts_of, widths_fit};
use crate::cache::{lease_state_ok, lease_step, Cache, CacheBlock};
use crate::lease_table::{
    block_result, build_block, ConfigError, LeaseTable, TraceItem, PROBABILITY_SCALE,
};
use crate::lru_sim::{lru_step, LRUCache};
use crate::virtual_cache::{virtual_state_ok, virtual_step, VirtualCache};
use vstd::prelude::*;

verus! {

/// What feeding a block to a cache of `set_count` sets comes to: the built
/// block, or the error that stops the run.
pub open spec fn checked_block(built: Result<CacheBlock, ConfigError>, set_count: nat) -> Result<
    CacheBlock,
    ConfigError,
> {
    match built {
        Ok(b) => if (b.set_index as nat) < set_count {
            Ok(b)
        } else {
            Err(ConfigError::SetIndexOutOfRange { set_index: b.set_index, set_count: set_count as u64 })
        },
        Err(e) => Err(e),
    }
}

fn check_set(built: Result<CacheBlock, ConfigError>, set_count: usize) -> (r: Result<
    CacheBlock,
    ConfigError,
>)
    ensures
        r == checked_block(built, set_count as nat),
{
    match built {
        Ok(b) => if b.set_index < set_count as u64 {
            Ok(b)
        } else {
            Err(ConfigError::SetIndexOutOfRange { set_index: b.set_index, set_count: set_count as u64 })
        },
        Err(e) => Err(e),
    }
}

/// Feeds one trace record to the physical cache. On an error the cache is
/// left as it was.
pub fn run_trace_step(
    cache: &mut Cache,
    item: &TraceItem,
    table: &LeaseTable,
    offset: u64,
    set: u64,
) -> (r: Result<(), ConfigError>)
    requires
        old(cache).wf(),
        old(cache)@.step < u64::MAX,
    ensures
        final(cache).wf(),
        lease_state_ok(final(cache)@),
        exists|draw: u64|
            #![trigger block_result(*item, offset, set, table@, draw)]
            draw < PROBABILITY_SCALE && match checked_block(
                block_result(*item, offset, set, table@, draw),
                old(cache)@.sets.len(),
            ) {
                Ok(b) => r is Ok && exists|pick: int|
                    final(cache)@ == #[trigger] lease_step(old(cache)@, b, pick),
                Err(e) => r == Err::<(), ConfigError>(e) && final(cache)@ == old(cache)@,
            },
{
    proof {
        cache.lemma_state_ok();
    }
    let built = build_block(item, offset, set, table);
    match check_set(built, cache.set_count()) {
        Ok(block) => {
            cache.update(block);
            Ok(())
        },
        Err(e) => Err(e),
    }
}

/// Feeds one trace record to the virtual cache. On an error the cache is
/// left as it was.
pub fn run_trace_virtual_step(
    cache: &mut VirtualCache,
    item: &TraceItem,
    table: &LeaseTable,
    offset: u64,
    set: u64,
) -> (r: Result<(), ConfigError>)
    requires
        virtual_state_ok(old(cache)@),
        old(cache)@.step < u64::MAX,
    ensures
        virtual_state_ok(final(cache)@),
        exists|draw: u64|
            #![trigger block_result(*item, offset, set, table@, draw)]
            draw < PROBABILITY_SCALE && match checked_block(
                block_result(*item, offset, set, table@, draw),
                old(cache)@.sets.len(),
            ) {
                Ok(b) => r is Ok && final(cache)@ == virtual_step(old(cache)@, b),
                Err(e) => r == Err::<(), ConfigError>(e) && final(cache)@ == old(cache)@,
            },
{
    let built = build_block(item, offset, set, table);
    match check_set(built, cache.set_count()) {
        Ok(block) => {
            cache.update(block);
            Ok(())
        },
        Err(e) => Err(e),
    }
}

/// Feeds one trace record to the LRU cache under the address's set index and
/// tag, as for the lease caches. On an error the cache is left as it was.
pub fn run_lru_step(cache: &mut LRUCache, item: &TraceItem, offset: u64, set: u64) -> (r: Result<
    (),
    ConfigError,
>)
    requires
        old(cache).wf(),
        old(cache)@.misses < u64::MAX,
    ensures
        final(cache).wf(),
        !widths_fit(offset, set) ==> r == Err::<(), ConfigError>(
            ConfigError::AddressWidthExceeded { offset_bits: offset, index_bits: set },
        ) && final(cache)@ == old(cache)@,
        widths_fit(offset, set) ==> {
            let parts = parts_of(item.access_tag, offset as nat, set as nat);
            let index = parts.set_index;
            if (index as nat) < old(cache)@.sets.len() {
                r is Ok && final(cache)@ == lru_step(old(cache)@, parts.tag, index as int)
            } else {
                r == Err::<(), ConfigError>(
                    ConfigError::SetIndexOutOfRange {
                        set_index: index,
                        set_count: old(cache)@.sets.len() as u64,
                    },
                ) && final(cache)@ == old(cache)@
            }
        },
{
    let parts = match decompose_address(item.access_tag, offset, set) {
        Some(p) => p,
        None => {
            return Err(ConfigError::AddressWidthExceeded { offset_bits: offset, index_bits: set });
        },
    };
    let set_count = cache.set_count();
    if parts.set_index >= set_count as u64 {
        return Err(ConfigError::SetIndexOutOfRange { set_index: parts.set_index, set_count: set_count as u64 });
    }
    cache.access(parts.tag, parts.set_index as usize);
    Ok(())
}

} // verus!
