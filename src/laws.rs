//! Properties of whole runs, over the step functions that the caches'
//! contracts are stated in.

use crate::cache::{
    age_all, bounded_admit, lease_state_ok, lease_step, lemma_lease_step_ok, CacheBlock,
    LeaseCacheState,
};
use crate::lines::{
    admitted, age_lines, aged, aged_survivor_of, appears_in, holds_tag, lemma_age_lines,
    lemma_age_lines_members,
    position_of_tag, survives_aging, tags_unique,
};
use crate::virtual_cache::{
    lemma_virtual_step_ok, open_admit, virtual_state_ok, virtual_step, VirtualCacheState,
};
use crate::lru_sim::{
    lemma_push_front_unique, lemma_remove_unique, lemma_touch_front, lru_state_ok, lru_step,
    lru_touch, positions_of, tag_position,
    LruState,
};
use crate::lease_table::{block_result, lease_for, LeaseEntry, TraceItem, PROBABILITY_SCALE};
use crate::oracle::{oracle_ok, oracle_record, OracleCounts};
use vstd::prelude::*;

verus! {

/// The physical cache after the accesses `blocks`, where the forced eviction
/// of the `i`-th access, if any, picks `picks[i]`.
pub open spec fn physical_run(m: LeaseCacheState, blocks: Seq<CacheBlock>, picks: Seq<int>) -> LeaseCacheState
    decreases blocks.len(),
{
    if blocks.len() == 0 {
        m
    } else {
        lease_step(
            physical_run(m, blocks.drop_last(), picks),
            blocks.last(),
            picks[blocks.len() - 1],
        )
    }
}

/// The virtual cache after the accesses `blocks`.
pub open spec fn virtual_run(m: VirtualCacheState, blocks: Seq<CacheBlock>) -> VirtualCacheState
    decreases blocks.len(),
{
    if blocks.len() == 0 {
        m
    } else {
        virtual_step(virtual_run(m, blocks.drop_last()), blocks.last())
    }
}

/// Every block names one of `set_count` sets.
pub open spec fn blocks_in_range(blocks: Seq<CacheBlock>, set_count: nat) -> bool {
    forall|i: int| 0 <= i < blocks.len() ==> (#[trigger] blocks[i]).set_index < set_count
}

/// After any run of the physical cache, the step count grew by the number of
/// accesses, misses never outnumber steps, forced evictions never outnumber
/// misses, and no set holds more lines than its capacity.
pub proof fn lemma_physical_run_counts(m: LeaseCacheState, blocks: Seq<CacheBlock>, picks: Seq<int>)
    requires
        lease_state_ok(m),
        blocks_in_range(blocks, m.sets.len()),
        m.step + blocks.len() <= u64::MAX,
    ensures
        ({
            let r = physical_run(m, blocks, picks);
            &&& r.step == m.step + blocks.len()
            &&& r.misses <= r.step
            &&& r.forced_evictions <= r.misses
            &&& r.sets.len() == m.sets.len()
            &&& r.capacity == m.capacity
            &&& forall|i: int| 0 <= i < r.sets.len() ==> (#[trigger] r.sets[i]).len() <= r.capacity
            &&& lease_state_ok(r)
        }),
    decreases blocks.len(),
{
    if blocks.len() > 0 {
        let prefix = blocks.drop_last();
        assert(blocks_in_range(prefix, m.sets.len())) by {
            assert forall|i: int| 0 <= i < prefix.len() implies (#[trigger] prefix[i]).set_index
                < m.sets.len() by {
                assert(prefix[i] == blocks[i]);
            }
        }
        lemma_physical_run_counts(m, prefix, picks);
        let before = physical_run(m, prefix, picks);
        assert(blocks.last() == blocks[blocks.len() - 1]);
        lemma_lease_step_ok(before, blocks.last(), picks[blocks.len() - 1]);
    }
}

/// After any run of the virtual cache, the step count grew by the number of
/// accesses and misses never outnumber steps.
pub proof fn lemma_virtual_run_counts(m: VirtualCacheState, blocks: Seq<CacheBlock>)
    requires
        virtual_state_ok(m),
        blocks_in_range(blocks, m.sets.len()),
        m.step + blocks.len() <= u64::MAX,
    ensures
        ({
            let r = virtual_run(m, blocks);
            &&& r.step == m.step + blocks.len()
            &&& r.misses <= r.step
            &&& r.sets.len() == m.sets.len()
            &&& virtual_state_ok(r)
        }),
    decreases blocks.len(),
{
    if blocks.len() > 0 {
        let prefix = blocks.drop_last();
        assert(blocks_in_range(prefix, m.sets.len())) by {
            assert forall|i: int| 0 <= i < prefix.len() implies (#[trigger] prefix[i]).set_index
                < m.sets.len() by {
                assert(prefix[i] == blocks[i]);
            }
        }
        lemma_virtual_run_counts(m, prefix);
        let before = virtual_run(m, prefix);
        assert(blocks.last() == blocks[blocks.len() - 1]);
        lemma_virtual_step_ok(before, blocks.last());
    }
}

/// Some line of `v` has the tag and the lease of `b`.
pub open spec fn has_match(v: Seq<CacheBlock>, b: CacheBlock) -> bool {
    exists|j: int| 0 <= j < v.len() && v[j].tag == b.tag && v[j].remaining_lease == b.remaining_lease
}

/// Every line of `p` has a line in `v` with the same tag and the same lease.
pub open spec fn covers(v: Seq<CacheBlock>, p: Seq<CacheBlock>) -> bool {
    forall|i: int| 0 <= i < p.len() ==> has_match(v, #[trigger] p[i])
}

/// Set by set, `v` covers `p`.
pub open spec fn covers_all(v: Seq<Seq<CacheBlock>>, p: Seq<Seq<CacheBlock>>) -> bool {
    &&& v.len() == p.len()
    &&& forall|k: int| 0 <= k < p.len() ==> covers(#[trigger] v[k], p[k])
}

/// Aging both caches keeps the cover: a surviving line has a surviving match.
proof fn lemma_cover_aging(v: Seq<CacheBlock>, p: Seq<CacheBlock>)
    requires
        covers(v, p),
    ensures
        covers(age_lines(v), age_lines(p)),
{
    lemma_age_lines_members(v);
    lemma_age_lines_members(p);
    let av = age_lines(v);
    let ap = age_lines(p);
    assert forall|i: int| 0 <= i < ap.len() implies has_match(av, #[trigger] ap[i]) by {
        assert(aged_survivor_of(p, ap[i]));
        let k = choose|k: int| 0 <= k < p.len() && survives_aging(p[k]) && ap[i] == aged(p[k]);
        assert(has_match(v, p[k]));
        let j = choose|j: int|
            0 <= j < v.len() && v[j].tag == p[k].tag && v[j].remaining_lease == p[k].remaining_lease;
        assert(survives_aging(v[j]));
        assert(appears_in(av, aged(v[j])));
        let jj = choose|jj: int| 0 <= jj < av.len() && av[jj] == aged(v[j]);
        assert(av[jj].tag == ap[i].tag && av[jj].remaining_lease == ap[i].remaining_lease);
    }
}

/// Looking a block up in both sets keeps the cover, and a physical hit is a
/// virtual hit.
proof fn lemma_cover_admit(v: Seq<CacheBlock>, p: Seq<CacheBlock>, block: CacheBlock, cap: nat, pick: int)
    requires
        covers(v, p),
        tags_unique(p),
        cap >= 1,
    ensures
        covers(open_admit(v, block), bounded_admit(p, block, cap, pick)),
        holds_tag(p, block.tag) ==> holds_tag(v, block.tag),
{
    let t = block.tag;
    let v_after = open_admit(v, block);
    let p_after = bounded_admit(p, block, cap, pick);
    if holds_tag(p, t) {
        let i0 = choose|i: int| 0 <= i < p.len() && p[i].tag == t;
        assert(has_match(v, p[i0]));
        let j0 = choose|j: int|
            0 <= j < v.len() && v[j].tag == p[i0].tag && v[j].remaining_lease == p[i0].remaining_lease;
        assert(holds_tag(v, t));
    }
    // The line now carrying `t` in `v_after`, and where it stands.
    let jt = if holds_tag(v, t) {
        position_of_tag(v, t)
    } else {
        v.len() as int
    };
    assert(0 <= jt < v_after.len() && v_after[jt].tag == t && v_after[jt].remaining_lease == block.remaining_lease);
    // Lines of `v` other than the one carrying `t` are untouched.
    assert forall|j: int| 0 <= j < v.len() && v[j].tag != t implies v_after[j] == v[j] by {}
    if !holds_tag(p, t) && p.len() >= cap {
        assert(p_after == p.remove(pick % (p.len() as int)).push(admitted(block)));
    }
    assert forall|i: int| 0 <= i < p_after.len() implies has_match(v_after, #[trigger] p_after[i]) by {
        if p_after[i].tag == t {
            if holds_tag(p, t) {
                let q = position_of_tag(p, t);
                if i != q {
                    assert(p[i].tag == t);
                }
                assert(p_after[i].remaining_lease == block.remaining_lease);
            } else if p.len() >= cap {
                let r = p.remove(pick % (p.len() as int));
                if i < r.len() {
                    let ii = if i < pick % (p.len() as int) { i } else { i + 1 };
                    assert(p_after[i] == p[ii]);
                }
            } else {
                if i < p.len() {
                    assert(p_after[i] == p[i]);
                }
            }
            assert(v_after[jt].tag == p_after[i].tag);
        } else {
            let k = if holds_tag(p, t) {
                i
            } else if p.len() >= cap {
                let r = p.remove(pick % (p.len() as int));
                if i < r.len() {
                    if i < pick % (p.len() as int) {
                        i
                    } else {
                        i + 1
                    }
                } else {
                    0
                }
            } else {
                i
            };
            assert(p_after[i] == p[k]);
            assert(has_match(v, p[k]));
            let j = choose|j: int|
                0 <= j < v.len() && v[j].tag == p[k].tag && v[j].remaining_lease == p[k].remaining_lease;
            assert(v_after[j] == v[j]);
        }
    }
}

/// Fed the same block, a virtual cache that covers a physical one (holds a
/// line with the same tag and lease for each of its lines) still covers it
/// after the access, whatever line a forced eviction picks; and a physical
/// hit is a virtual hit, so the virtual cache adds no more misses.
pub proof fn lemma_step_cover(pm: LeaseCacheState, vm: VirtualCacheState, block: CacheBlock, pick: int)
    requires
        lease_state_ok(pm),
        covers_all(vm.sets, pm.sets),
        (block.set_index as int) < pm.sets.len(),
        pm.step <= u64::MAX,
    ensures
        covers_all(virtual_step(vm, block).sets, lease_step(pm, block, pick).sets),
        virtual_step(vm, block).misses - vm.misses <= lease_step(pm, block, pick).misses - pm.misses,
{
    let idx = block.set_index as int;
    let ap = age_all(pm.sets);
    let av = vm.sets.map_values(|s: Seq<CacheBlock>| age_lines(s));
    assert forall|k: int| 0 <= k < pm.sets.len() implies covers(#[trigger] av[k], ap[k]) by {
        lemma_cover_aging(vm.sets[k], pm.sets[k]);
    }
    lemma_age_lines(pm.sets[idx], pm.step);
    lemma_cover_admit(av[idx], ap[idx], block, pm.capacity, pick);
    let nv = virtual_step(vm, block);
    let np = lease_step(pm, block, pick);
    assert forall|k: int| 0 <= k < np.sets.len() implies covers(#[trigger] nv.sets[k], np.sets[k]) by {
        if k != idx {
            assert(nv.sets[k] == av[k] && np.sets[k] == ap[k]);
        }
    }
}

/// Over any run of the same blocks, a virtual cache that covers a physical
/// one keeps covering it and adds no more misses than the physical one.
pub proof fn lemma_run_cover(pm: LeaseCacheState, vm: VirtualCacheState, blocks: Seq<CacheBlock>, picks: Seq<int>)
    requires
        lease_state_ok(pm),
        covers_all(vm.sets, pm.sets),
        blocks_in_range(blocks, pm.sets.len()),
        pm.step + blocks.len() <= u64::MAX,
    ensures
        covers_all(virtual_run(vm, blocks).sets, physical_run(pm, blocks, picks).sets),
        virtual_run(vm, blocks).misses - vm.misses <= physical_run(pm, blocks, picks).misses
            - pm.misses,
    decreases blocks.len(),
{
    if blocks.len() > 0 {
        let prefix = blocks.drop_last();
        assert(blocks_in_range(prefix, pm.sets.len())) by {
            assert forall|i: int| 0 <= i < prefix.len() implies (#[trigger] prefix[i]).set_index
                < pm.sets.len() by {
                assert(prefix[i] == blocks[i]);
            }
        }
        lemma_run_cover(pm, vm, prefix, picks);
        lemma_physical_run_counts(pm, prefix, picks);
        assert(blocks.last() == blocks[blocks.len() - 1]);
        lemma_step_cover(
            physical_run(pm, prefix, picks),
            virtual_run(vm, prefix),
            blocks.last(),
            picks[blocks.len() - 1],
        );
    }
}

/// Fed the same blocks, and so the same leases, a virtual cache never misses
/// more often than a physical cache that starts from the same lines, whatever
/// lines the physical cache's forced evictions pick: both count one step per
/// access, and the virtual cache counts at most as many misses.
pub proof fn lemma_virtual_misses_at_most_physical(
    pm: LeaseCacheState,
    vm: VirtualCacheState,
    blocks: Seq<CacheBlock>,
    picks: Seq<int>,
)
    requires
        lease_state_ok(pm),
        vm.sets == pm.sets,
        vm.step == pm.step,
        vm.misses == pm.misses,
        blocks_in_range(blocks, pm.sets.len()),
        pm.step + blocks.len() <= u64::MAX,
    ensures
        virtual_run(vm, blocks).step == physical_run(pm, blocks, picks).step,
        virtual_run(vm, blocks).misses <= physical_run(pm, blocks, picks).misses,
{
    assert forall|k: int| 0 <= k < pm.sets.len() implies covers(#[trigger] vm.sets[k], pm.sets[k]) by {
        let s = pm.sets[k];
        assert forall|i: int| 0 <= i < s.len() implies has_match(s, #[trigger] s[i]) by {}
    }
    lemma_run_cover(pm, vm, blocks, picks);
    lemma_physical_run_counts(pm, blocks, picks);
    lemma_virtual_run_step_count(vm, blocks);
}

/// A virtual run counts one step per access.
proof fn lemma_virtual_run_step_count(m: VirtualCacheState, blocks: Seq<CacheBlock>)
    ensures
        virtual_run(m, blocks).step == m.step + blocks.len(),
    decreases blocks.len(),
{
    if blocks.len() > 0 {
        lemma_virtual_run_step_count(m, blocks.drop_last());
    }
}

/// An access keeps the LRU cache's invariant.
pub proof fn lemma_lru_step_ok(m: LruState, tag: u64, set_index: int)
    requires
        lru_state_ok(m),
        0 <= set_index < m.sets.len(),
    ensures
        lru_state_ok(lru_step(m, tag, set_index)),
{
    let s = m.sets[set_index];
    let t = lru_touch(s, tag, m.ways);
    if s.contains(tag) {
        let pos = tag_position(s, tag);
        lemma_remove_unique(s, pos);
        lemma_push_front_unique(tag, s.remove(pos));
    } else if s.len() >= m.ways {
        assert(s.drop_last() =~= s.remove(s.len() - 1));
        lemma_remove_unique(s, s.len() - 1);
        lemma_push_front_unique(tag, s.drop_last());
    } else {
        lemma_push_front_unique(tag, s);
    }
    let n = lru_step(m, tag, set_index);
    assert forall|i: int| 0 <= i < n.sets.len() implies {
        &&& (#[trigger] n.sets[i]).len() <= n.ways
        &&& n.sets[i].no_duplicates()
        &&& n.index[i] == positions_of(n.sets[i])
    } by {
        if i != set_index {
            assert(n.sets[i] == m.sets[i]);
            assert(n.index[i] == m.index[i]);
        }
    }
}

/// The LRU cache after the accesses `accesses`, each a tag and a set index.
pub open spec fn lru_run(m: LruState, accesses: Seq<(u64, int)>) -> LruState
    decreases accesses.len(),
{
    if accesses.len() == 0 {
        m
    } else {
        let (tag, set_index) = accesses.last();
        lru_step(lru_run(m, accesses.drop_last()), tag, set_index)
    }
}

/// After any run of the LRU cache, no set holds more tags than its ways,
/// and no set holds a tag twice.
pub proof fn lemma_lru_run_within_ways(m: LruState, accesses: Seq<(u64, int)>)
    requires
        lru_state_ok(m),
        forall|i: int| 0 <= i < accesses.len() ==> 0 <= (#[trigger] accesses[i]).1 < m.sets.len(),
    ensures
        lru_run(m, accesses).sets.len() == m.sets.len(),
        lru_run(m, accesses).ways == m.ways,
        forall|i: int|
            0 <= i < m.sets.len() ==> (#[trigger] lru_run(m, accesses).sets[i]).len() <= m.ways,
        lru_state_ok(lru_run(m, accesses)),
    decreases accesses.len(),
{
    if accesses.len() > 0 {
        let prefix = accesses.drop_last();
        assert forall|i: int| 0 <= i < prefix.len() implies 0 <= (#[trigger] prefix[i]).1
            < m.sets.len() by {
            assert(prefix[i] == accesses[i]);
        }
        lemma_lru_run_within_ways(m, prefix);
        let (tag, set_index) = accesses.last();
        assert(accesses.last() == accesses[accesses.len() - 1]);
        lemma_lru_step_ok(lru_run(m, prefix), tag, set_index);
    }
}

/// The LRU cache after `n` accesses to `tag` in set `set_index`.
pub open spec fn lru_repeat(m: LruState, tag: u64, set_index: int, n: nat) -> LruState
    decreases n,
{
    if n == 0 {
        m
    } else {
        lru_step(lru_repeat(m, tag, set_index, (n - 1) as nat), tag, set_index)
    }
}

/// Accessing one tag over and over misses at most once, on the first access
/// if the tag was absent, and hits ever after; the tag stays the most
/// recently used of its set.
pub proof fn lemma_lru_repeat_misses_once(m: LruState, tag: u64, set_index: int, n: nat)
    requires
        lru_state_ok(m),
        0 <= set_index < m.sets.len(),
        n >= 1,
    ensures
        lru_repeat(m, tag, set_index, n).misses == m.misses + if m.sets[set_index].contains(tag) {
            0int
        } else {
            1int
        },
        lru_repeat(m, tag, set_index, n).sets[set_index][0] == tag,
        lru_repeat(m, tag, set_index, n).sets[set_index] == lru_touch(m.sets[set_index], tag, m.ways),
        lru_state_ok(lru_repeat(m, tag, set_index, n)),
        lru_repeat(m, tag, set_index, n).sets.len() == m.sets.len(),
        lru_repeat(m, tag, set_index, n).ways == m.ways,
    decreases n,
{
    if n == 1 {
        lemma_lru_step_ok(m, tag, set_index);
        assert(lru_repeat(m, tag, set_index, 0) == m);
    } else {
        lemma_lru_repeat_misses_once(m, tag, set_index, (n - 1) as nat);
        let before = lru_repeat(m, tag, set_index, (n - 1) as nat);
        let s = before.sets[set_index];
        lemma_touch_front(s, tag, before.ways);
        assert(lru_step(before, tag, set_index).index =~= before.index);
        assert(lru_step(before, tag, set_index).sets =~= before.sets);
    }
}

/// The oracle's counters after the accesses `accesses`, each a reuse
/// interval and the lease drawn for it.
pub open spec fn oracle_run(c: OracleCounts, accesses: Seq<(u64, u64)>) -> OracleCounts
    decreases accesses.len(),
{
    if accesses.len() == 0 {
        c
    } else {
        oracle_record(oracle_run(c, accesses.drop_last()), accesses.last().0, accesses.last().1)
    }
}

/// After any run of the oracle, hits and misses add up to the accesses
/// classified, one per access.
pub proof fn lemma_oracle_run_balanced(c: OracleCounts, accesses: Seq<(u64, u64)>)
    requires
        oracle_ok(c),
    ensures
        oracle_ok(oracle_run(c, accesses)),
        oracle_run(c, accesses).hits + oracle_run(c, accesses).misses == oracle_run(
            c,
            accesses,
        ).total,
        oracle_run(c, accesses).total == c.total + accesses.len(),
    decreases accesses.len(),
{
    if accesses.len() > 0 {
        lemma_oracle_run_balanced(c, accesses.drop_last());
    }
}

/// Taking one access out of a run and recording it last gives the same counts.
proof fn lemma_oracle_run_remove(c: OracleCounts, s: Seq<(u64, u64)>, j: int)
    requires
        0 <= j < s.len(),
    ensures
        oracle_run(c, s) == oracle_record(oracle_run(c, s.remove(j)), s[j].0, s[j].1),
    decreases s.len(),
{
    if j == s.len() - 1 {
        assert(s.remove(j) =~= s.drop_last());
    } else {
        let p = s.drop_last();
        lemma_oracle_run_remove(c, p, j);
        assert(p.remove(j) =~= s.remove(j).drop_last());
        assert(s.remove(j).last() == s.last());
        assert(p[j] == s[j]);
    }
}

/// The oracle keeps no state across accesses: any reordering of a run's
/// accesses, each keeping its own reuse interval and lease, ends with the
/// same counts.
pub proof fn lemma_oracle_order_free(c: OracleCounts, a: Seq<(u64, u64)>, b: Seq<(u64, u64)>)
    requires
        a.to_multiset() == b.to_multiset(),
    ensures
        oracle_run(c, a) == oracle_run(c, b),
    decreases a.len(),
{
    broadcast use vstd::seq_lib::group_to_multiset_ensures, vstd::multiset::group_multiset_axioms;

    if a.len() == 0 {
        assert(b.to_multiset().len() == 0);
        assert(b.len() == 0);
        assert(a =~= b);
    } else {
        let x = a.last();
        let p = a.drop_last();
        assert(a =~= p.push(x));
        assert(a.contains(x)) by {
            assert(a[a.len() - 1] == x);
        }
        assert(b.to_multiset().count(x) > 0);
        assert(b.contains(x));
        let j = choose|j: int| 0 <= j < b.len() && b[j] == x;
        assert(p.to_multiset() =~= b.remove(j).to_multiset()) by {
            assert(a.to_multiset() =~= p.to_multiset().insert(x));
            assert(b.remove(j).to_multiset() =~= b.to_multiset().remove(x));
        }
        lemma_oracle_order_free(c, p, b.remove(j));
        lemma_oracle_run_remove(c, b, j);
    }
}

/// A short lease that is certain, its chance the whole scale or more, is
/// what every draw gives.
pub proof fn lemma_certain_short_lease(entry: LeaseEntry, draw: u64)
    requires
        entry.short_chance >= PROBABILITY_SCALE,
        draw < PROBABILITY_SCALE,
    ensures
        lease_for(entry, draw) == entry.short_lease,
{
}

/// With certain short leases in the table, building a block involves no
/// chance: any two draws build the same block, which carries the short lease.
pub proof fn lemma_certain_short_lease_block(
    input: TraceItem,
    offset_bits: u64,
    index_bits: u64,
    table: Map<u64, LeaseEntry>,
    first: u64,
    second: u64,
)
    requires
        forall|r: u64| #[trigger] table.contains_key(r) ==> table[r].short_chance >= PROBABILITY_SCALE,
        first < PROBABILITY_SCALE,
        second < PROBABILITY_SCALE,
    ensures
        block_result(input, offset_bits, index_bits, table, first) == block_result(
            input,
            offset_bits,
            index_bits,
            table,
            second,
        ),
        block_result(input, offset_bits, index_bits, table, first) matches Ok(b)
            ==> b.remaining_lease == table[input.reference].short_lease,
{
}

} // verus!
