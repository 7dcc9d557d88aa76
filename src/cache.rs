//! The physical lease cache: fixed-capacity sets whose lines leave when their
//! lease runs out, or, under capacity pressure, by a forced eviction.

use crate::lines::{
    admitted, age_lines, holds_tag, lemma_age_lines, lemma_position_of_tag, position_of_tag,
    refreshed, tags_unique, tenancies_below,
};
use crate::random::draw_below;
use crate::text::{digits_in, push_digits, push_text};
use vstd::prelude::*;

verus! {

/// A cache line: where it came from, and its lease and tenancy.
#[derive(Clone, Copy, Debug, PartialEq, Eq, Structural)]
pub struct CacheBlock {
    pub address: u64,
    pub tag: u64,
    pub set_index: u64,
    pub block_offset: u64,
    pub remaining_lease: u64,
    pub tenancy: u64,
}

impl CacheBlock {
    /// A block with every field zero.
    pub fn new() -> (b: CacheBlock)
        ensures
            b == (CacheBlock {
                address: 0,
                tag: 0,
                set_index: 0,
                block_offset: 0,
                remaining_lease: 0,
                tenancy: 0,
            }),
    {
        CacheBlock {
            address: 0,
            tag: 0,
            set_index: 0,
            block_offset: 0,
            remaining_lease: 0,
            tenancy: 0,
        }
    }

    /// The block as one line of text.
    pub fn print(&self) -> (r: String)
        ensures
            r@ == block_text(*self),
    {
        let mut out = String::new();
        push_text(&mut out, "address: ");
        push_digits(&mut out, self.address, 2);
        push_text(&mut out, ", tag: ");
        push_digits(&mut out, self.tag, 2);
        push_text(&mut out, ", set_index: ");
        push_digits(&mut out, self.set_index, 2);
        push_text(&mut out, ", block_offset: ");
        push_digits(&mut out, self.block_offset, 2);
        push_text(&mut out, ", remaining_lease: ");
        push_digits(&mut out, self.remaining_lease, 10);
        push_text(&mut out, ", tenancy: ");
        push_digits(&mut out, self.tenancy, 10);
        out
    }
}

/// How `CacheBlock::print` writes a block: the address and its parts in
/// binary, lease and tenancy in decimal.
pub open spec fn block_text(b: CacheBlock) -> Seq<char> {
    "address: "@ + digits_in(b.address as nat, 2) + ", tag: "@ + digits_in(b.tag as nat, 2)
        + ", set_index: "@ + digits_in(b.set_index as nat, 2) + ", block_offset: "@ + digits_in(
        b.block_offset as nat,
        2,
    ) + ", remaining_lease: "@ + digits_in(b.remaining_lease as nat, 10) + ", tenancy: "@
        + digits_in(b.tenancy as nat, 10)
}

/// The lines of a set after `block` was looked up in it (aging already done):
/// a hit renews the line's lease; a miss admits the block, first evicting the
/// line at `pick` modulo the set's size when the set is full.
pub open spec fn bounded_admit(s: Seq<CacheBlock>, block: CacheBlock, capacity: nat, pick: int) -> Seq<
    CacheBlock,
> {
    if holds_tag(s, block.tag) {
        refreshed(s, block.tag, block.remaining_lease)
    } else if s.len() >= capacity {
        s.remove(pick % (s.len() as int)).push(admitted(block))
    } else {
        s.push(admitted(block))
    }
}

/// What the physical cache is, seen from outside.
pub ghost struct LeaseCacheState {
    /// The resident lines of each set.
    pub sets: Seq<Seq<CacheBlock>>,
    /// How many lines each set holds at most.
    pub capacity: nat,
    pub step: nat,
    pub misses: nat,
    pub forced_evictions: nat,
}

/// Every set aged by one step.
pub open spec fn age_all(sets: Seq<Seq<CacheBlock>>) -> Seq<Seq<CacheBlock>> {
    sets.map_values(|s: Seq<CacheBlock>| age_lines(s))
}

/// One access of the physical cache: age every set, look the block up in its
/// set, admit it on a miss (evicting at `pick` if the set is full), count.
pub open spec fn lease_step(m: LeaseCacheState, block: CacheBlock, pick: int) -> LeaseCacheState {
    let aged = age_all(m.sets);
    let target = aged[block.set_index as int];
    let hit = holds_tag(target, block.tag);
    let forced = !hit && target.len() >= m.capacity;
    LeaseCacheState {
        sets: aged.update(block.set_index as int, bounded_admit(target, block, m.capacity, pick)),
        capacity: m.capacity,
        step: m.step + 1,
        misses: if hit {
            m.misses
        } else {
            m.misses + 1
        },
        forced_evictions: if forced {
            m.forced_evictions + 1
        } else {
            m.forced_evictions
        },
    }
}

/// What holds of the physical cache between accesses.
pub open spec fn lease_state_ok(m: LeaseCacheState) -> bool {
    &&& m.capacity >= 1
    &&& m.misses <= m.step
    &&& m.forced_evictions <= m.misses
    &&& forall|i: int|
        0 <= i < m.sets.len() ==> {
            &&& (#[trigger] m.sets[i]).len() <= m.capacity
            &&& tags_unique(m.sets[i])
            &&& tenancies_below(m.sets[i], m.step)
        }
}

/// Admitting a block keeps a set within capacity, its tags unique, and its
/// lines younger than the next step.
pub proof fn lemma_bounded_admit(target: Seq<CacheBlock>, block: CacheBlock, cap: nat, pick: int, step: nat)
    requires
        cap >= 1,
        target.len() <= cap,
        tags_unique(target),
        tenancies_below(target, step + 1),
    ensures
        ({
            let s = bounded_admit(target, block, cap, pick);
            &&& s.len() <= cap
            &&& tags_unique(s)
            &&& tenancies_below(s, step + 1)
        }),
{
    let s = bounded_admit(target, block, cap, pick);
    if holds_tag(target, block.tag) {
        let p = position_of_tag(target, block.tag);
        assert forall|i: int, j: int|
            0 <= i < s.len() && 0 <= j < s.len() && #[trigger] s[i].tag
                == #[trigger] s[j].tag implies i == j by {
            assert(s[i].tag == target[i].tag);
            assert(s[j].tag == target[j].tag);
        }
        assert forall|i: int| 0 <= i < s.len() implies #[trigger] s[i].tenancy < step
            + 1 by {
            assert(s[i].tenancy == target[i].tenancy);
        }
    } else if target.len() >= cap {
        let r = target.remove(pick % (target.len() as int));
        assert forall|t: u64| holds_tag(r, t) implies holds_tag(target, t) by {
            let i = choose|i: int| 0 <= i < r.len() && r[i].tag == t;
            if i < pick % (target.len() as int) {
                assert(r[i] == target[i]);
            } else {
                assert(r[i] == target[i + 1]);
            }
        }
        assert forall|i: int, j: int|
            0 <= i < s.len() && 0 <= j < s.len() && #[trigger] s[i].tag
                == #[trigger] s[j].tag implies i == j by {
            let q = pick % (target.len() as int);
            if i < r.len() && j < r.len() {
                let ii = if i < q { i } else { i + 1 };
                let jj = if j < q { j } else { j + 1 };
                assert(r[i] == target[ii]);
                assert(r[j] == target[jj]);
            } else if i < r.len() {
                assert(s[i] == r[i]);
                assert(holds_tag(r, s[i].tag));
            } else if j < r.len() {
                assert(s[j] == r[j]);
                assert(holds_tag(r, s[j].tag));
            }
        }
        assert forall|i: int| 0 <= i < s.len() implies #[trigger] s[i].tenancy < step
            + 1 by {
            let q = pick % (target.len() as int);
            if i < r.len() {
                if i < q {
                    assert(r[i] == target[i]);
                } else {
                    assert(r[i] == target[i + 1]);
                }
            }
        }
    } else {
        assert forall|i: int, j: int|
            0 <= i < s.len() && 0 <= j < s.len() && #[trigger] s[i].tag
                == #[trigger] s[j].tag implies i == j by {
            if i < target.len() && j == target.len() {
                assert(holds_tag(target, s[i].tag));
            } else if j < target.len() && i == target.len() {
                assert(holds_tag(target, s[j].tag));
            }
        }
        assert forall|i: int| 0 <= i < s.len() implies #[trigger] s[i].tenancy < step
            + 1 by {
            if i < target.len() {
                assert(s[i] == target[i]);
            }
        }
    }
}

/// An access keeps the physical cache's invariant.
pub proof fn lemma_lease_step_ok(m: LeaseCacheState, block: CacheBlock, pick: int)
    requires
        lease_state_ok(m),
        (block.set_index as int) < m.sets.len(),
        m.step <= u64::MAX,
    ensures
        lease_state_ok(lease_step(m, block, pick)),
{
    let aged = age_all(m.sets);
    let next = lease_step(m, block, pick);
    let idx = block.set_index as int;
    assert forall|i: int| 0 <= i < aged.len() implies {
        &&& (#[trigger] aged[i]).len() <= m.capacity
        &&& tags_unique(aged[i])
        &&& tenancies_below(aged[i], m.step + 1)
    } by {
        lemma_age_lines(m.sets[i], m.step);
    }
    lemma_bounded_admit(aged[idx], block, m.capacity, pick, m.step);
    assert forall|i: int| 0 <= i < next.sets.len() implies {
        &&& (#[trigger] next.sets[i]).len() <= next.capacity
        &&& tags_unique(next.sets[i])
        &&& tenancies_below(next.sets[i], next.step)
    } by {
        if i != idx {
            assert(next.sets[i] == aged[i]);
        }
    }
}

/// Whether an access to `block` hits a set, misses, or misses and forces out a line.
enum Admission {
    Hit,
    Miss,
    Eviction,
}

struct CacheSet {
    block_num: u64,
    blocks: Vec<CacheBlock>,
}

impl CacheSet {
    fn new(size: u64) -> (s: CacheSet)
        ensures
            s.block_num == size,
            s.blocks@ == Seq::<CacheBlock>::empty(),
    {
        CacheSet { block_num: size, blocks: Vec::new() }
    }

    /// Ages every line by one step and drops the lines whose lease ran out.
    fn update(&mut self)
        requires
            tenancies_below(old(self).blocks@, u64::MAX as nat),
        ensures
            final(self).blocks@ == age_lines(old(self).blocks@),
            final(self).block_num == old(self).block_num,
    {
        let mut kept: Vec<CacheBlock> = Vec::new();
        let n = self.blocks.len();
        let mut i: usize = 0;
        while i < n
            invariant
                n == self.blocks.len(),
                i <= n,
                tenancies_below(self.blocks@, u64::MAX as nat),
                kept@ == age_lines(self.blocks@.take(i as int)),
            decreases n - i,
        {
            let b = self.blocks[i];
            assert(self.blocks@.take(i + 1).drop_last() =~= self.blocks@.take(i as int));
            if b.remaining_lease > 2 {
                kept.push(
                    CacheBlock { remaining_lease: b.remaining_lease - 1, tenancy: b.tenancy + 1, ..b },
                );
            }
            i = i + 1;
        }
        assert(self.blocks@.take(n as int) =~= self.blocks@);
        self.blocks = kept;
    }

    /// The position of the line carrying `tag`, if any.
    fn find(&self, tag: u64) -> (r: Option<usize>)
        requires
            tags_unique(self.blocks@),
        ensures
            r is Some <==> holds_tag(self.blocks@, tag),
            r is Some ==> r->0 == position_of_tag(self.blocks@, tag),
    {
        let mut i: usize = 0;
        while i < self.blocks.len()
            invariant
                i <= self.blocks.len(),
                tags_unique(self.blocks@),
                forall|j: int| 0 <= j < i ==> self.blocks@[j].tag != tag,
            decreases self.blocks.len() - i,
        {
            if self.blocks[i].tag == tag {
                proof {
                    lemma_position_of_tag(self.blocks@, i as int);
                }
                return Some(i);
            }
            i = i + 1;
        }
        None
    }

    /// Removes and returns the line at `pick` modulo the number of lines.
    fn evict_at(&mut self, pick: usize) -> (victim: CacheBlock)
        requires
            old(self).blocks.len() > 0,
        ensures
            victim == old(self).blocks@[(pick as int) % (old(self).blocks@.len() as int)],
            final(self).blocks@ == old(self).blocks@.remove((pick as int) % (old(self).blocks@.len() as int)),
            final(self).block_num == old(self).block_num,
    {
        let at = pick % self.blocks.len();
        self.blocks.remove(at)
    }

    /// Looks `new_block` up: a hit renews the lease of the resident line; a
    /// miss admits the block, evicting the line at `pick` first if the set is full.
    fn push_to_set(&mut self, new_block: CacheBlock, pick: usize) -> (outcome: Admission)
        requires
            tags_unique(old(self).blocks@),
            old(self).block_num >= 1,
            old(self).blocks.len() <= old(self).block_num,
        ensures
            final(self).blocks@ == bounded_admit(
                old(self).blocks@,
                new_block,
                old(self).block_num as nat,
                pick as int,
            ),
            final(self).block_num == old(self).block_num,
            outcome is Hit <==> holds_tag(old(self).blocks@, new_block.tag),
            outcome is Eviction <==> !holds_tag(old(self).blocks@, new_block.tag) && old(self).blocks.len() >= old(self).block_num,
    {
        match self.find(new_block.tag) {
            Some(i) => {
                let mut line = self.blocks[i];
                line.remaining_lease = new_block.remaining_lease;
                self.blocks.set(i, line);
                Admission::Hit
            },
            None => {
                let fresh = CacheBlock { tenancy: 0, ..new_block };
                if self.blocks.len() as u64 >= self.block_num {
                    self.evict_at(pick);
                    self.blocks.push(fresh);
                    Admission::Eviction
                } else {
                    self.blocks.push(fresh);
                    Admission::Miss
                }
            },
        }
    }
}

/// A set-associative cache whose lines expire by lease.
pub struct Cache {
    sets: Vec<CacheSet>,
    step: u64,
    forced_eviction_counter: u64,
    miss_counter: u64,
}

impl View for Cache {
    type V = LeaseCacheState;

    closed spec fn view(&self) -> LeaseCacheState {
        LeaseCacheState {
            sets: self.sets@.map_values(|s: CacheSet| s.blocks@),
            capacity: self.sets@[0].block_num as nat,
            step: self.step as nat,
            misses: self.miss_counter as nat,
            forced_evictions: self.forced_eviction_counter as nat,
        }
    }
}

impl Cache {
    /// The cache's own invariant.
    pub closed spec fn wf(&self) -> bool {
        &&& self.sets.len() > 0
        &&& forall|i: int|
            0 <= i < self.sets.len() ==> (#[trigger] self.sets@[i]).block_num
                == self.sets@[0].block_num
        &&& lease_state_ok(self@)
    }

    /// A cache of `size` lines in `associativity` sets of `size / associativity`
    /// lines each.
    pub fn new(size: u64, associativity: u64) -> (c: Cache)
        requires
            0 < associativity <= size,
            associativity <= usize::MAX,
        ensures
            c.wf(),
            lease_state_ok(c@),
            c@.sets == Seq::new(associativity as nat, |i: int| Seq::<CacheBlock>::empty()),
            c@.capacity == size / associativity,
            c@.step == 0,
            c@.misses == 0,
            c@.forced_evictions == 0,
    {
        let per_set = size / associativity;
        let mut sets: Vec<CacheSet> = Vec::new();
        let mut i: u64 = 0;
        while i < associativity
            invariant
                i <= associativity,
                per_set == size / associativity,
                sets.len() == i,
                forall|j: int|
                    0 <= j < i ==> (#[trigger] sets@[j]).block_num == per_set && sets@[j].blocks@
                        == Seq::<CacheBlock>::empty(),
            decreases associativity - i,
        {
            sets.push(CacheSet::new(per_set));
            i = i + 1;
        }
        proof {
            vstd::arithmetic::div_mod::lemma_div_is_ordered(associativity as int, size as int, associativity as int);
            vstd::arithmetic::div_mod::lemma_div_by_self(associativity as int);
        }
        let c = Cache { sets, step: 0, forced_eviction_counter: 0, miss_counter: 0 };
        assert(c@.sets =~= Seq::new(associativity as nat, |i: int| Seq::<CacheBlock>::empty()));
        c
    }

    /// Ages every line of every set by one step.
    fn age_all_sets(&mut self)
        requires
            old(self).wf(),
            old(self)@.step < u64::MAX,
        ensures
            final(self).sets.len() == old(self).sets.len(),
            forall|i: int|
                0 <= i < final(self).sets.len() ==> (#[trigger] final(self).sets@[i]).blocks@
                    == age_lines(old(self).sets@[i].blocks@) && final(self).sets@[i].block_num
                    == old(self).sets@[i].block_num,
            final(self).step == old(self).step,
            final(self).miss_counter == old(self).miss_counter,
            final(self).forced_eviction_counter == old(self).forced_eviction_counter,
    {
        let n = self.sets.len();
        let mut i: usize = 0;
        while i < n
            invariant
                n == self.sets.len() == old(self).sets.len(),
                i <= n,
                old(self).wf(),
                old(self)@.step < u64::MAX,
                forall|j: int|
                    0 <= j < i ==> (#[trigger] self.sets@[j]).blocks@ == age_lines(
                        old(self).sets@[j].blocks@,
                    ) && self.sets@[j].block_num == old(self).sets@[j].block_num,
                forall|j: int| i <= j < n ==> #[trigger] self.sets@[j] == old(self).sets@[j],
                self.step == old(self).step,
                self.miss_counter == old(self).miss_counter,
                self.forced_eviction_counter == old(self).forced_eviction_counter,
            decreases n - i,
        {
            assert(old(self)@.sets[i as int] == old(self).sets@[i as int].blocks@);
            self.sets[i].update();
            i = i + 1;
        }
    }

    /// Step two and three of an access, on sets that were just aged.
    fn look_up_and_count(&mut self, block: CacheBlock, pick: usize)
        requires
            old(self).sets.len() > 0,
            (block.set_index as int) < old(self).sets.len(),
            old(self).step < u64::MAX,
            old(self).miss_counter <= old(self).step,
            old(self).forced_eviction_counter <= old(self).miss_counter,
            old(self).sets@[block.set_index as int].block_num >= 1,
            old(self).sets@[block.set_index as int].blocks.len() <= old(self).sets@[block.set_index as int].block_num,
            tags_unique(old(self).sets@[block.set_index as int].blocks@),
        ensures
            final(self).sets.len() == old(self).sets.len(),
            forall|i: int|
                0 <= i < final(self).sets.len() && i != block.set_index ==> #[trigger] final(self).sets@[i] == old(self).sets@[i],
            final(self).sets@[block.set_index as int].blocks@ == bounded_admit(
                old(self).sets@[block.set_index as int].blocks@,
                block,
                old(self).sets@[block.set_index as int].block_num as nat,
                pick as int,
            ),
            final(self).sets@[block.set_index as int].block_num == old(self).sets@[block.set_index as int].block_num,
            final(self).step == old(self).step + 1,
            final(self).miss_counter == old(self).miss_counter + if holds_tag(
                old(self).sets@[block.set_index as int].blocks@,
                block.tag,
            ) {
                0int
            } else {
                1int
            },
            final(self).forced_eviction_counter == old(self).forced_eviction_counter + if !holds_tag(
                old(self).sets@[block.set_index as int].blocks@,
                block.tag,
            ) && old(self).sets@[block.set_index as int].blocks.len() >= old(self).sets@[block.set_index as int].block_num {
                1int
            } else {
                0int
            },
    {
        let idx = block.set_index as usize;
        let outcome = self.sets[idx].push_to_set(block, pick);
        match outcome {
            Admission::Hit => {},
            Admission::Miss => {
                self.miss_counter = self.miss_counter + 1;
            },
            Admission::Eviction => {
                self.miss_counter = self.miss_counter + 1;
                self.forced_eviction_counter = self.forced_eviction_counter + 1;
            },
        }
        self.step = self.step + 1;
    }

    /// One access, with the line that a forced eviction removes given as
    /// `pick` (taken modulo the size of the full set).
    pub fn update_with_pick(&mut self, block: CacheBlock, pick: usize)
        requires
            old(self).wf(),
            (block.set_index as int) < old(self)@.sets.len(),
            old(self)@.step < u64::MAX,
        ensures
            final(self).wf(),
            lease_state_ok(final(self)@),
            final(self)@ == lease_step(old(self)@, block, pick as int),
            final(self)@.step == old(self)@.step + 1,
            final(self)@.sets.len() == old(self)@.sets.len(),
            final(self)@.capacity == old(self)@.capacity,
            forall|i: int|
                0 <= i < final(self)@.sets.len() ==> (#[trigger] final(self)@.sets[i]).len()
                    <= final(self)@.capacity,
            final(self)@.misses <= old(self)@.misses + 1,
            final(self)@.forced_evictions - old(self)@.forced_evictions <= final(self)@.misses - old(self)@.misses,
            final(self)@.forced_evictions <= final(self)@.misses <= final(self)@.step,
    {
        proof {
            self.lemma_aging_keeps_invariant();
        }
        self.age_all_sets();
        self.look_up_and_count(block, pick);
        proof {
            self.lemma_access_result(*old(self), block, pick as int);
        }
    }

    /// One access: age every line, look the block up in its set, and on a
    /// miss admit it, evicting a line drawn uniformly at random if the set
    /// is full.
    pub fn update(&mut self, block: CacheBlock)
        requires
            old(self).wf(),
            (block.set_index as int) < old(self)@.sets.len(),
            old(self)@.step < u64::MAX,
        ensures
            final(self).wf(),
            lease_state_ok(final(self)@),
            exists|pick: int| final(self)@ == #[trigger] lease_step(old(self)@, block, pick),
            final(self)@.step == old(self)@.step + 1,
            final(self)@.sets.len() == old(self)@.sets.len(),
            final(self)@.capacity == old(self)@.capacity,
            forall|i: int|
                0 <= i < final(self)@.sets.len() ==> (#[trigger] final(self)@.sets[i]).len()
                    <= final(self)@.capacity,
            final(self)@.misses <= old(self)@.misses + 1,
            final(self)@.forced_evictions - old(self)@.forced_evictions <= final(self)@.misses - old(self)@.misses,
            final(self)@.forced_evictions <= final(self)@.misses <= final(self)@.step,
    {
        proof {
            self.lemma_aging_keeps_invariant();
        }
        self.age_all_sets();
        let idx = block.set_index as usize;
        let mut pick: usize = 0;
        if self.sets[idx].find(block.tag).is_none() {
            let resident = self.sets[idx].blocks.len();
            if resident as u64 >= self.sets[idx].block_num {
                pick = draw_below(resident as u64) as usize;
            }
        }
        self.look_up_and_count(block, pick);
        proof {
            self.lemma_access_result(*old(self), block, pick as int);
        }
    }

    /// Aging an invariant-abiding cache leaves sets that fit, with unique tags.
    proof fn lemma_aging_keeps_invariant(&self)
        requires
            self.wf(),
        ensures
            forall|i: int|
                0 <= i < self.sets.len() ==> {
                    let a = age_lines(#[trigger] self.sets@[i].blocks@);
                    &&& a.len() <= self.sets@[i].block_num
                    &&& tags_unique(a)
                    &&& tenancies_below(a, (self.step + 1) as nat)
                },
    {
        assert forall|i: int| 0 <= i < self.sets.len() implies {
            let a = age_lines(#[trigger] self.sets@[i].blocks@);
            &&& a.len() <= self.sets@[i].block_num
            &&& tags_unique(a)
            &&& tenancies_below(a, (self.step + 1) as nat)
        } by {
            assert(self@.sets[i] == self.sets@[i].blocks@);
            lemma_age_lines(self.sets@[i].blocks@, self.step as nat);
        }
    }

    /// After aging and admission, the cache is where `lease_step` says, and
    /// keeps its invariant.
    proof fn lemma_access_result(&self, before: Cache, block: CacheBlock, pick: int)
        requires
            before.wf(),
            before@.step < u64::MAX,
            (block.set_index as int) < before.sets.len(),
            self.sets.len() == before.sets.len(),
            forall|i: int|
                0 <= i < self.sets.len() && i != block.set_index ==> #[trigger] self.sets@[i].blocks@
                    == age_lines(before.sets@[i].blocks@) && self.sets@[i].block_num
                    == before.sets@[i].block_num,
            self.sets@[block.set_index as int].block_num
                == before.sets@[block.set_index as int].block_num,
            self.sets@[block.set_index as int].blocks@ == bounded_admit(
                age_lines(before.sets@[block.set_index as int].blocks@),
                block,
                before.sets@[block.set_index as int].block_num as nat,
                pick,
            ),
            self.step == before.step + 1,
            self.miss_counter == before.miss_counter + if holds_tag(
                age_lines(before.sets@[block.set_index as int].blocks@),
                block.tag,
            ) {
                0int
            } else {
                1int
            },
            self.forced_eviction_counter == before.forced_eviction_counter + if !holds_tag(
                age_lines(before.sets@[block.set_index as int].blocks@),
                block.tag,
            ) && age_lines(before.sets@[block.set_index as int].blocks@).len()
                >= before.sets@[block.set_index as int].block_num {
                1int
            } else {
                0int
            },
        ensures
            self.wf(),
            lease_state_ok(self@),
            self@ == lease_step(before@, block, pick),
    {
        let idx = block.set_index as int;
        let m = before@;
        let aged = age_all(m.sets);
        assert(before.sets@[0].block_num == before.sets@[idx].block_num);
        assert forall|i: int| 0 <= i < aged.len() implies #[trigger] aged[i] == age_lines(
            before.sets@[i].blocks@,
        ) by {
            assert(m.sets[i] == before.sets@[i].blocks@);
        }
        lemma_lease_step_ok(m, block, pick);
        let next = lease_step(m, block, pick);
        assert(self@.sets =~= next.sets) by {
            assert forall|i: int| 0 <= i < self@.sets.len() implies self@.sets[i] == next.sets[i] by {
                if i != idx {
                    assert(self@.sets[i] == self.sets@[i].blocks@);
                }
            }
        }
        assert(self.sets@[0].block_num == before.sets@[0].block_num) by {
            if idx != 0 {
                assert(self.sets@[0].blocks@ == age_lines(before.sets@[0].blocks@));
            }
        }
        assert forall|i: int| 0 <= i < self.sets.len() implies (#[trigger] self.sets@[i]).block_num
            == self.sets@[0].block_num by {
            assert(before.sets@[i].block_num == before.sets@[0].block_num);
            if i != idx {
                assert(self.sets@[i].blocks@ == age_lines(before.sets@[i].blocks@));
            }
        }
    }

    /// A cache that keeps its own invariant keeps the one stated of its view.
    pub proof fn lemma_state_ok(&self)
        requires
            self.wf(),
        ensures
            lease_state_ok(self@),
    {
    }

    /// How many accesses were made.
    pub fn step(&self) -> (r: u64)
        ensures
            r == self@.step,
    {
        self.step
    }

    /// How many accesses missed.
    pub fn miss_count(&self) -> (r: u64)
        ensures
            r == self@.misses,
    {
        self.miss_counter
    }

    /// How many lines were forced out to make room.
    pub fn forced_eviction_count(&self) -> (r: u64)
        ensures
            r == self@.forced_evictions,
    {
        self.forced_eviction_counter
    }

    /// The number of sets.
    pub fn set_count(&self) -> (r: usize)
        ensures
            r == self@.sets.len(),
    {
        self.sets.len()
    }

    /// The resident lines of set `index`.
    pub fn set_lines(&self, index: usize) -> (r: &Vec<CacheBlock>)
        requires
            index < self@.sets.len(),
        ensures
            r@ == self@.sets[index as int],
    {
        &self.sets[index].blocks
    }
}

} // verus!
