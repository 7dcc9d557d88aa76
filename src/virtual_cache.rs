//! The virtual lease cache: sets without a capacity bound, so that lines
//! leave only when their lease runs out.

use crate::cache::CacheBlock;
use crate::lines::{
    admitted, age_lines, holds_tag, lemma_age_lines, lemma_position_of_tag, position_of_tag,
    refreshed, tags_unique, tenancies_below,
};
use vstd::prelude::*;

verus! {

/// The lines of a set after `block` was looked up in it (aging already done):
/// a hit renews the line's lease, a miss admits the block.
pub open spec fn open_admit(s: Seq<CacheBlock>, block: CacheBlock) -> Seq<CacheBlock> {
    if holds_tag(s, block.tag) {
        refreshed(s, block.tag, block.remaining_lease)
    } else {
        s.push(admitted(block))
    }
}

/// What the virtual cache is, seen from outside.
pub ghost struct VirtualCacheState {
    /// The resident lines of each set.
    pub sets: Seq<Seq<CacheBlock>>,
    pub step: nat,
    pub misses: nat,
}

/// One access of the virtual cache: age every set, then look the block up
/// in its set and admit it on a miss.
pub open spec fn virtual_step(m: VirtualCacheState, block: CacheBlock) -> VirtualCacheState {
    let aged = m.sets.map_values(|s: Seq<CacheBlock>| age_lines(s));
    let target = aged[block.set_index as int];
    let hit = holds_tag(target, block.tag);
    VirtualCacheState {
        sets: aged.update(block.set_index as int, open_admit(target, block)),
        step: m.step + 1,
        misses: if hit {
            m.misses
        } else {
            m.misses + 1
        },
    }
}

/// What holds of the virtual cache between accesses.
pub open spec fn virtual_state_ok(m: VirtualCacheState) -> bool {
    &&& m.misses <= m.step
    &&& forall|i: int|
        0 <= i < m.sets.len() ==> {
            &&& tags_unique(#[trigger] m.sets[i])
            &&& tenancies_below(m.sets[i], m.step)
        }
}

/// An access keeps the virtual cache's invariant.
pub proof fn lemma_virtual_step_ok(m: VirtualCacheState, block: CacheBlock)
    requires
        virtual_state_ok(m),
        (block.set_index as int) < m.sets.len(),
        m.step <= u64::MAX,
    ensures
        virtual_state_ok(virtual_step(m, block)),
{
    let next = virtual_step(m, block);
    let aged = m.sets.map_values(|s: Seq<CacheBlock>| age_lines(s));
    let idx = block.set_index as int;
    assert forall|j: int| 0 <= j < next.sets.len() implies {
        &&& tags_unique(#[trigger] next.sets[j])
        &&& tenancies_below(next.sets[j], next.step)
    } by {
        lemma_age_lines(m.sets[j], m.step);
        let target = aged[j];
        if j == idx {
            let s = next.sets[j];
            if holds_tag(target, block.tag) {
                assert forall|a: int, b: int|
                    0 <= a < s.len() && 0 <= b < s.len() && #[trigger] s[a].tag
                        == #[trigger] s[b].tag implies a == b by {
                    assert(s[a].tag == target[a].tag && s[b].tag == target[b].tag);
                }
                assert forall|a: int| 0 <= a < s.len() implies #[trigger] s[a].tenancy
                    < next.step by {
                    assert(s[a].tenancy == target[a].tenancy);
                }
            } else {
                assert forall|a: int, b: int|
                    0 <= a < s.len() && 0 <= b < s.len() && #[trigger] s[a].tag
                        == #[trigger] s[b].tag implies a == b by {
                    if a < target.len() && b == target.len() {
                        assert(holds_tag(target, s[a].tag));
                    } else if b < target.len() && a == target.len() {
                        assert(holds_tag(target, s[b].tag));
                    }
                }
                assert forall|a: int| 0 <= a < s.len() implies #[trigger] s[a].tenancy
                    < next.step by {
                    if a < target.len() {
                        assert(s[a] == target[a]);
                    }
                }
            }
        }
    }
}

struct VirtualCacheSet {
    blocks: Vec<CacheBlock>,
}

impl VirtualCacheSet {
    fn new() -> (s: VirtualCacheSet)
        ensures
            s.blocks@ == Seq::<CacheBlock>::empty(),
    {
        VirtualCacheSet { blocks: Vec::new() }
    }

    /// Looks `new_block` up: a hit renews the lease of the resident line, a
    /// miss admits the block. Returns whether it was a hit.
    fn push_to_set(&mut self, new_block: CacheBlock) -> (hit: bool)
        requires
            tags_unique(old(self).blocks@),
        ensures
            final(self).blocks@ == open_admit(old(self).blocks@, new_block),
            hit == holds_tag(old(self).blocks@, new_block.tag),
    {
        let mut i: usize = 0;
        while i < self.blocks.len()
            invariant
                i <= self.blocks.len(),
                self.blocks@ == old(self).blocks@,
                tags_unique(self.blocks@),
                forall|j: int| 0 <= j < i ==> self.blocks@[j].tag != new_block.tag,
            decreases self.blocks.len() - i,
        {
            if self.blocks[i].tag == new_block.tag {
                proof {
                    lemma_position_of_tag(self.blocks@, i as int);
                }
                let mut line = self.blocks[i];
                line.remaining_lease = new_block.remaining_lease;
                self.blocks.set(i, line);
                return true;
            }
            i = i + 1;
        }
        self.blocks.push(CacheBlock { tenancy: 0, ..new_block });
        false
    }

    /// Ages every line by one step and drops the lines whose lease ran out.
    fn update(&mut self)
        requires
            tenancies_below(old(self).blocks@, u64::MAX as nat),
        ensures
            final(self).blocks@ == age_lines(old(self).blocks@),
    {
        let mut kept: Vec<CacheBlock> = Vec::new();
        let n = self.blocks.len();
        let mut i: usize = 0;
        while i < n
            invariant
                n == self.blocks.len(),
                i <= n,
                tenancies_below(self.blocks@, u64::MAX as nat),
                kept@ == age_lines(self.blocks@.take(i as int)),
            decreases n - i,
        {
            let b = self.blocks[i];
            assert(self.blocks@.take(i + 1).drop_last() =~= self.blocks@.take(i as int));
            if b.remaining_lease > 2 {
                kept.push(
                    CacheBlock { remaining_lease: b.remaining_lease - 1, tenancy: b.tenancy + 1, ..b },
                );
            }
            i = i + 1;
        }
        assert(self.blocks@.take(n as int) =~= self.blocks@);
        self.blocks = kept;
    }
}

/// A lease cache without capacity bound.
pub struct VirtualCache {
    sets: Vec<VirtualCacheSet>,
    step: u64,
    miss_counter: u64,
}

impl View for VirtualCache {
    type V = VirtualCacheState;

    closed spec fn view(&self) -> VirtualCacheState {
        VirtualCacheState {
            sets: self.sets@.map_values(|s: VirtualCacheSet| s.blocks@),
            step: self.step as nat,
            misses: self.miss_counter as nat,
        }
    }
}

impl VirtualCache {
    /// An empty virtual cache of `associativity` sets.
    pub fn new(associativity: u64) -> (c: VirtualCache)
        requires
            associativity <= usize::MAX,
        ensures
            virtual_state_ok(c@),
            c@.sets == Seq::new(associativity as nat, |i: int| Seq::<CacheBlock>::empty()),
            c@.step == 0,
            c@.misses == 0,
    {
        let mut sets: Vec<VirtualCacheSet> = Vec::new();
        let mut i: u64 = 0;
        while i < associativity
            invariant
                i <= associativity,
                sets.len() == i,
                forall|j: int| 0 <= j < i ==> (#[trigger] sets@[j]).blocks@ == Seq::<CacheBlock>::empty(),
            decreases associativity - i,
        {
            sets.push(VirtualCacheSet::new());
            i = i + 1;
        }
        let c = VirtualCache { sets, step: 0, miss_counter: 0 };
        assert(c@.sets =~= Seq::new(associativity as nat, |i: int| Seq::<CacheBlock>::empty()));
        c
    }

    /// One access: age every line, then look the block up in its set and
    /// admit it on a miss.
    pub fn update(&mut self, block: CacheBlock)
        requires
            virtual_state_ok(old(self)@),
            (block.set_index as int) < old(self)@.sets.len(),
            old(self)@.step < u64::MAX,
        ensures
            virtual_state_ok(final(self)@),
            final(self)@ == virtual_step(old(self)@, block),
            final(self)@.step == old(self)@.step + 1,
            final(self)@.sets.len() == old(self)@.sets.len(),
            final(self)@.misses <= old(self)@.misses + 1,
            final(self)@.misses <= final(self)@.step,
    {
        let ghost before = self@;
        let n = self.sets.len();
        let mut i: usize = 0;
        while i < n
            invariant
                n == self.sets.len() == old(self).sets.len(),
                i <= n,
                virtual_state_ok(before),
                before == old(self)@,
                before.step < u64::MAX,
                forall|j: int|
                    0 <= j < i ==> (#[trigger] self.sets@[j]).blocks@ == age_lines(
                        old(self).sets@[j].blocks@,
                    ),
                forall|j: int| i <= j < n ==> #[trigger] self.sets@[j] == old(self).sets@[j],
                self.step == old(self).step,
                self.miss_counter == old(self).miss_counter,
            decreases n - i,
        {
            assert(before.sets[i as int] == old(self).sets@[i as int].blocks@);
            self.sets[i].update();
            i = i + 1;
        }
        let idx = block.set_index as usize;
        proof {
            assert(before.sets[idx as int] == old(self).sets@[idx as int].blocks@);
            lemma_age_lines(old(self).sets@[idx as int].blocks@, before.step);
        }
        let hit = self.sets[idx].push_to_set(block);
        if !hit {
            self.miss_counter = self.miss_counter + 1;
        }
        self.step = self.step + 1;
        proof {
            let next = virtual_step(before, block);
            let aged = before.sets.map_values(|s: Seq<CacheBlock>| age_lines(s));
            assert forall|j: int| 0 <= j < self@.sets.len() implies self@.sets[j] == next.sets[j] by {
                assert(before.sets[j] == old(self).sets@[j].blocks@);
                if j != idx {
                    assert(self@.sets[j] == self.sets@[j].blocks@);
                }
            }
            assert(self@.sets =~= next.sets);
            lemma_virtual_step_ok(before, block);
        }
    }

    /// How many accesses were made.
    pub fn step(&self) -> (r: u64)
        ensures
            r == self@.step,
    {
        self.step
    }

    /// How many accesses missed.
    pub fn miss_count(&self) -> (r: u64)
        ensures
            r == self@.misses,
    {
        self.miss_counter
    }

    /// The number of sets.
    pub fn set_count(&self) -> (r: usize)
        ensures
            r == self@.sets.len(),
    {
        self.sets.len()
    }

    /// The resident lines of set `index`.
    pub fn set_lines(&self, index: usize) -> (r: &Vec<CacheBlock>)
        requires
            index < self@.sets.len(),
        ensures
            r@ == self@.sets[index as int],
    {
        &self.sets[index].blocks
    }
}

} // verus!
