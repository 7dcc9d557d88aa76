//! The LRU baseline: set-associative, recency-ordered sets with a position
//! index per set.

use std::collections::HashMap;
use std::collections::VecDeque;
use crate::text::{digits_in, flag_text, push_digits, push_flag, push_text};
use vstd::prelude::*;

verus! {

broadcast use vstd::std_specs::hash::group_hash_axioms;

/// An entry of an LRU set.
#[derive(Clone, Copy, Debug, PartialEq, Eq, Structural)]
pub struct LRUCacheBlock {
    pub tag: u64,
    pub set_index: u64,
    pub valid: bool,
}

impl LRUCacheBlock {
    /// A valid entry for `tag` in set `set_index`.
    pub fn new(tag: u64, set_index: u64) -> (b: LRUCacheBlock)
        ensures
            b == (LRUCacheBlock { tag, set_index, valid: true }),
    {
        LRUCacheBlock { tag, set_index, valid: true }
    }

    /// The entry as one line of text, tag and set index in hexadecimal.
    pub fn print(&self) -> (r: String)
        ensures
            r@ == lru_block_text(*self),
    {
        let mut out = String::new();
        push_text(&mut out, "tag: ");
        push_digits(&mut out, self.tag, 16);
        push_text(&mut out, ", set_index: ");
        push_digits(&mut out, self.set_index, 16);
        push_text(&mut out, ", valid: ");
        push_flag(&mut out, self.valid);
        out
    }
}

/// How `LRUCacheBlock::print` writes an entry.
pub open spec fn lru_block_text(b: LRUCacheBlock) -> Seq<char> {
    "tag: "@ + digits_in(b.tag as nat, 16) + ", set_index: "@ + digits_in(b.set_index as nat, 16)
        + ", valid: "@ + flag_text(b.valid)
}

/// The tags of a set's entries, most recently used first.
pub open spec fn tags_of(d: Seq<LRUCacheBlock>) -> Seq<u64> {
    d.map_values(|b: LRUCacheBlock| b.tag)
}

/// Where `tag` stands in `s`, if it is there.
pub open spec fn tag_position(s: Seq<u64>, tag: u64) -> int {
    choose|i: int| 0 <= i < s.len() && s[i] == tag
}

/// A set's recency order after an access to `tag`: a present tag moves to
/// the front; an absent one enters at the front, pushing out the least
/// recently used tag when the set already holds `ways` tags.
pub open spec fn lru_touch(s: Seq<u64>, tag: u64, ways: nat) -> Seq<u64> {
    if s.contains(tag) {
        seq![tag] + s.remove(tag_position(s, tag))
    } else if s.len() >= ways {
        seq![tag] + s.drop_last()
    } else {
        seq![tag] + s
    }
}

/// What the LRU cache is, seen from outside.
pub ghost struct LruState {
    /// The tags of each set, most recently used first.
    pub sets: Seq<Seq<u64>>,
    /// For each set, the recorded position of each of its tags.
    pub index: Seq<Map<u64, usize>>,
    /// How many tags a set holds at most.
    pub ways: nat,
    pub misses: nat,
}

/// The position of every tag of `s`: what a set's index must record.
pub open spec fn positions_of(s: Seq<u64>) -> Map<u64, usize> {
    Map::new(|t: u64| s.contains(t), |t: u64| tag_position(s, t) as usize)
}

/// One access of the LRU cache.
pub open spec fn lru_step(m: LruState, tag: u64, set_index: int) -> LruState {
    LruState {
        sets: m.sets.update(set_index, lru_touch(m.sets[set_index], tag, m.ways)),
        index: m.index.update(set_index, positions_of(lru_touch(m.sets[set_index], tag, m.ways))),
        ways: m.ways,
        misses: if m.sets[set_index].contains(tag) {
            m.misses
        } else {
            m.misses + 1
        },
    }
}

/// What holds of the LRU cache between accesses.
pub open spec fn lru_state_ok(m: LruState) -> bool {
    &&& m.ways >= 1
    &&& m.index.len() == m.sets.len()
    &&& forall|i: int|
        0 <= i < m.sets.len() ==> {
            &&& (#[trigger] m.sets[i]).len() <= m.ways
            &&& m.sets[i].no_duplicates()
            &&& m.index[i] == positions_of(m.sets[i])
        }
}

/// A set-associative cache with least-recently-used replacement.
pub struct LRUCache {
    #[allow(dead_code)]
    size: usize,
    sets: Vec<VecDeque<LRUCacheBlock>>,
    /// For each set, the position of each of its tags.
    cache_map: Vec<HashMap<u64, usize>>,
    num_sets: usize,
    associativity: usize,
    miss_counter: u64,
}

impl View for LRUCache {
    type V = LruState;

    closed spec fn view(&self) -> LruState {
        LruState {
            sets: self.sets@.map_values(|d: VecDeque<LRUCacheBlock>| tags_of(d@)),
            index: self.cache_map@.map_values(|h: HashMap<u64, usize>| h@),
            ways: self.associativity as nat,
            misses: self.miss_counter as nat,
        }
    }
}

/// The index of a set records exactly its tags, each at its position.
spec fn index_matches(d: Seq<LRUCacheBlock>, index: Map<u64, usize>) -> bool {
    &&& forall|t: u64| index.contains_key(t) <==> tags_of(d).contains(t)
    &&& forall|j: int| 0 <= j < d.len() ==> index[#[trigger] d[j].tag] == j
}

/// An index that records exactly the tags of a duplicate-free set, each at
/// its position, is `positions_of` the set.
proof fn lemma_index_is_positions(d: Seq<LRUCacheBlock>, index: Map<u64, usize>)
    requires
        index_matches(d, index),
        tags_of(d).no_duplicates(),
    ensures
        index == positions_of(tags_of(d)),
{
    let s = tags_of(d);
    assert forall|t: u64| #[trigger] index.contains_key(t) implies index[t] == tag_position(s, t) as usize by {
        let p = tag_position(s, t);
        assert(s[p] == t);
        assert(d[p].tag == t);
        assert(index[d[p].tag] == p);
    }
    assert(index =~= positions_of(s));
}

/// An access to the most recently used tag changes nothing.
pub proof fn lemma_touch_front(s: Seq<u64>, tag: u64, ways: nat)
    requires
        s.no_duplicates(),
        s.len() > 0,
        s[0] == tag,
    ensures
        s.contains(tag),
        lru_touch(s, tag, ways) == s,
{
    assert(s.contains(tag));
    let p = tag_position(s, tag);
    assert(s[p] == tag);
    assert(p == 0);
    assert(seq![tag] + s.remove(0) =~= s);
}

/// Removing the entry at `p` from a duplicate-free order drops exactly its tag.
pub proof fn lemma_remove_unique(s: Seq<u64>, p: int)
    requires
        s.no_duplicates(),
        0 <= p < s.len(),
    ensures
        s.remove(p).no_duplicates(),
        forall|t: u64| s.remove(p).contains(t) <==> (s.contains(t) && t != s[p]),
{
    let r = s.remove(p);
    assert forall|t: u64| r.contains(t) <==> (s.contains(t) && t != s[p]) by {
        if r.contains(t) {
            let i = choose|i: int| 0 <= i < r.len() && r[i] == t;
            if i < p {
                assert(s[i] == t);
            } else {
                assert(s[i + 1] == t);
            }
        }
        if s.contains(t) && t != s[p] {
            let j = choose|j: int| 0 <= j < s.len() && s[j] == t;
            if j < p {
                assert(r[j] == t);
            } else {
                assert(r[j - 1] == t);
            }
        }
    }
    assert forall|i: int, j: int| 0 <= i < r.len() && 0 <= j < r.len() && i != j implies r[i]
        != r[j] by {
        let ii = if i < p { i } else { i + 1 };
        let jj = if j < p { j } else { j + 1 };
        assert(r[i] == s[ii] && r[j] == s[jj]);
    }
}

/// Putting a new tag in front of a duplicate-free order keeps it so.
pub proof fn lemma_push_front_unique(t: u64, s: Seq<u64>)
    requires
        s.no_duplicates(),
        !s.contains(t),
    ensures
        (seq![t] + s).no_duplicates(),
        forall|x: u64| (seq![t] + s).contains(x) <==> (x == t || s.contains(x)),
{
    let r = seq![t] + s;
    assert forall|x: u64| r.contains(x) <==> (x == t || s.contains(x)) by {
        if r.contains(x) {
            let i = choose|i: int| 0 <= i < r.len() && r[i] == x;
            if i > 0 {
                assert(s[i - 1] == x);
            }
        }
        if s.contains(x) {
            let j = choose|j: int| 0 <= j < s.len() && s[j] == x;
            assert(r[j + 1] == x);
        }
        if x == t {
            assert(r[0] == x);
        }
    }
    assert forall|i: int, j: int| 0 <= i < r.len() && 0 <= j < r.len() && i != j implies r[i]
        != r[j] by {
        if i > 0 && j > 0 {
            assert(r[i] == s[i - 1] && r[j] == s[j - 1]);
        } else if i > 0 {
            assert(r[i] == s[i - 1]);
            assert(s.contains(r[i]));
        } else {
            assert(r[j] == s[j - 1]);
            assert(s.contains(r[j]));
        }
    }
}

impl LRUCache {
    /// The cache's own invariant.
    pub closed spec fn wf(&self) -> bool {
        &&& self.sets.len() == self.num_sets
        &&& self.cache_map.len() == self.num_sets
        &&& lru_state_ok(self@)
        &&& forall|i: int|
            0 <= i < self.num_sets ==> {
                &&& index_matches((#[trigger] self.sets@[i])@, self.cache_map@[i]@)
                &&& forall|j: int|
                    0 <= j < self.sets@[i]@.len() ==> (#[trigger] self.sets@[i]@[j]).set_index
                        == i && self.sets@[i]@[j].valid
            }
    }

    /// An empty cache of `num_sets` sets of `associativity` entries each.
    pub fn new(size: usize, num_sets: usize, associativity: usize) -> (c: LRUCache)
        requires
            associativity >= 1,
        ensures
            c.wf(),
            lru_state_ok(c@),
            c@.sets == Seq::new(num_sets as nat, |i: int| Seq::<u64>::empty()),
            c@.ways == associativity,
            c@.misses == 0,
    {
        let mut sets: Vec<VecDeque<LRUCacheBlock>> = Vec::new();
        let mut cache_map: Vec<HashMap<u64, usize>> = Vec::new();
        let mut i: usize = 0;
        while i < num_sets
            invariant
                i <= num_sets,
                sets.len() == i,
                cache_map.len() == i,
                forall|j: int| 0 <= j < i ==> (#[trigger] sets@[j])@ == Seq::<LRUCacheBlock>::empty(),
                forall|j: int| 0 <= j < i ==> (#[trigger] cache_map@[j])@ == Map::<u64, usize>::empty(),
            decreases num_sets - i,
        {
            sets.push(VecDeque::new());
            cache_map.push(HashMap::new());
            i = i + 1;
        }
        let c = LRUCache { size, sets, cache_map, num_sets, associativity, miss_counter: 0 };
        assert forall|j: int| 0 <= j < num_sets implies tags_of(#[trigger] c.sets@[j]@) == Seq::<
            u64,
        >::empty() by {
            assert(tags_of(c.sets@[j]@) =~= Seq::<u64>::empty());
        }
        assert(c@.sets =~= Seq::new(num_sets as nat, |i: int| Seq::<u64>::empty()));
        assert forall|i: int| 0 <= i < num_sets implies index_matches(
            (#[trigger] c.sets@[i])@,
            c.cache_map@[i]@,
        ) by {
            assert(c.sets@[i]@ == Seq::<LRUCacheBlock>::empty());
            assert(tags_of(c.sets@[i]@) =~= Seq::<u64>::empty());
        }
        assert forall|i: int| 0 <= i < num_sets implies #[trigger] c@.index[i] == positions_of(
            c@.sets[i],
        ) by {
            assert(c@.sets[i] == Seq::<u64>::empty());
            assert(c@.index[i] =~= positions_of(c@.sets[i]));
        }
        c
    }

    /// Accesses `tag` in set `set_index`: a hit moves it to the most recently
    /// used position; a miss counts, evicts the least recently used entry if
    /// the set is full, and puts the tag at the most recently used position.
    pub fn access(&mut self, tag: u64, set_index: usize)
        requires
            old(self).wf(),
            set_index < old(self)@.sets.len(),
            old(self)@.misses < u64::MAX,
        ensures
            final(self).wf(),
            lru_state_ok(final(self)@),
            final(self)@ == lru_step(old(self)@, tag, set_index as int),
            final(self)@.sets.len() == old(self)@.sets.len(),
            forall|i: int|
                0 <= i < final(self)@.sets.len() ==> (#[trigger] final(self)@.sets[i]).len()
                    <= final(self)@.ways,
            final(self)@.misses <= old(self)@.misses + 1,
            ({
                let s = old(self)@.sets[set_index as int];
                s.len() > 0 && s[0] == tag ==> final(self)@ == old(self)@
            }),
    {
        let ghost old_d = self.sets@[set_index as int]@;
        let ghost old_tags = tags_of(old_d);
        assert(old_tags == old(self)@.sets[set_index as int]);
        let found = match self.cache_map[set_index].get(&tag) {
            Some(p) => Some(*p),
            None => None,
        };
        match found {
            Some(pos) => {
                proof {
                    assert(old_tags.contains(tag));
                    let j = choose|j: int| 0 <= j < old_tags.len() && old_tags[j] == tag;
                    assert(old_d[j].tag == tag);
                    assert(pos == j);
                }
                let removed = self.sets[set_index].remove(pos);
                match removed {
                    Some(block) => {
                        self.sets[set_index].push_front(block);
                    },
                    None => {},
                }
                proof {
                    let d = self.sets@[set_index as int]@;
                    assert(tags_of(d) =~= seq![tag] + old_tags.remove(pos as int));
                    assert(tag_position(old_tags, tag) == pos);
                    lemma_remove_unique(old_tags, pos as int);
                    lemma_push_front_unique(tag, old_tags.remove(pos as int));
                    assert forall|j: int| 0 <= j < d.len() implies (#[trigger] d[j]).set_index
                        == set_index && d[j].valid by {
                        if j > 0 {
                            let k = if j - 1 < pos { j - 1 } else { j };
                            assert(d[j] == old_d[k]);
                        }
                    }
                }
            },
            None => {
                proof {
                    assert(!old_tags.contains(tag));
                }
                self.miss_counter = self.miss_counter + 1;
                if self.sets[set_index].len() >= self.associativity {
                    let popped = self.sets[set_index].pop_back();
                    match popped {
                        Some(lru_block) => {
                            self.cache_map[set_index].remove(&lru_block.tag);
                        },
                        None => {},
                    }
                    proof {
                        let d = self.sets@[set_index as int]@;
                        assert(tags_of(d) =~= old_tags.drop_last());
                        assert(old_tags.drop_last() =~= old_tags.remove(old_tags.len() - 1));
                        lemma_remove_unique(old_tags, old_tags.len() - 1);
                    }
                }
                let ghost mid = tags_of(self.sets@[set_index as int]@);
                let new_block = LRUCacheBlock::new(tag, set_index as u64);
                self.sets[set_index].push_front(new_block);
                self.cache_map[set_index].insert(tag, 0);
                proof {
                    let d = self.sets@[set_index as int]@;
                    assert(tags_of(d) =~= seq![tag] + mid);
                    assert(!mid.contains(tag));
                    lemma_push_front_unique(tag, mid);
                    assert forall|j: int| 0 <= j < d.len() implies (#[trigger] d[j]).set_index
                        == set_index && d[j].valid by {
                        if j > 0 {
                            assert(d[j] == old_d[j - 1]);
                        }
                    }
                }
            },
        }
        proof {
            let d = self.sets@[set_index as int]@;
            let new_tags = lru_touch(old_tags, tag, old(self)@.ways);
            assert(tags_of(d) == new_tags);
            assert(new_tags.len() <= old(self)@.ways);
            assert(new_tags.no_duplicates());
            assert(forall|t: u64| self.cache_map@[set_index as int]@.contains_key(t) <==> new_tags.contains(t));
            assert(forall|j: int| 0 <= j < d.len() ==> (#[trigger] d[j]).set_index == set_index && d[j].valid);
        }
        self.reindex(set_index);
        proof {
            let next = lru_step(old(self)@, tag, set_index as int);
            assert forall|i: int| 0 <= i < self@.sets.len() implies self@.sets[i] == next.sets[i] by {
                if i != set_index {
                    assert(self.sets@[i] == old(self).sets@[i]);
                }
            }
            assert(self@.sets =~= next.sets);
            assert forall|i: int| 0 <= i < self.num_sets implies {
                &&& index_matches((#[trigger] self.sets@[i])@, self.cache_map@[i]@)
                &&& forall|j: int|
                    0 <= j < self.sets@[i]@.len() ==> (#[trigger] self.sets@[i]@[j]).set_index
                        == i && self.sets@[i]@[j].valid
            } by {
                if i != set_index {
                    assert(self.sets@[i] == old(self).sets@[i]);
                    assert(self.cache_map@[i] == old(self).cache_map@[i]);
                }
            }
            lemma_index_is_positions(
                self.sets@[set_index as int]@,
                self.cache_map@[set_index as int]@,
            );
            assert forall|i: int| 0 <= i < self@.sets.len() implies {
                &&& (#[trigger] self@.sets[i]).len() <= self@.ways
                &&& self@.sets[i].no_duplicates()
                &&& self@.index[i] == positions_of(self@.sets[i])
            } by {
                if i != set_index {
                    assert(self@.sets[i] == old(self)@.sets[i]);
                    assert(self@.index[i] == old(self)@.index[i]);
                }
            }
            assert(self@.index =~= next.index) by {
                assert forall|i: int| 0 <= i < self@.index.len() implies self@.index[i]
                    == next.index[i] by {
                    if i != set_index {
                        assert(self@.index[i] == old(self)@.index[i]);
                    }
                }
            }
            let s0 = old(self)@.sets[set_index as int];
            if s0.len() > 0 && s0[0] == tag {
                lemma_touch_front(s0, tag, old(self)@.ways);
                assert(self@.sets =~= old(self)@.sets);
                assert(self@.index =~= old(self)@.index);
            }
        }
    }

    /// Records the current position of every tag of set `set_index`.
    fn reindex(&mut self, set_index: usize)
        requires
            set_index < old(self).sets.len(),
            old(self).cache_map.len() == old(self).sets.len(),
            tags_of(old(self).sets@[set_index as int]@).no_duplicates(),
            forall|t: u64|
                old(self).cache_map@[set_index as int]@.contains_key(t) <==> tags_of(
                    old(self).sets@[set_index as int]@,
                ).contains(t),
        ensures
            final(self).sets == old(self).sets,
            final(self).cache_map.len() == old(self).cache_map.len(),
            forall|i: int|
                0 <= i < final(self).cache_map.len() && i != set_index ==> #[trigger] final(
                    self).cache_map@[i] == old(self).cache_map@[i],
            index_matches(final(self).sets@[set_index as int]@, final(self).cache_map@[set_index as int]@),
            final(self).size == old(self).size,
            final(self).num_sets == old(self).num_sets,
            final(self).associativity == old(self).associativity,
            final(self).miss_counter == old(self).miss_counter,
    {
        let ghost d = self.sets@[set_index as int]@;
        let n = self.sets[set_index].len();
        let mut i: usize = 0;
        while i < n
            invariant
                self.sets == old(self).sets,
                d == self.sets@[set_index as int]@,
                n == d.len(),
                i <= n,
                set_index < self.sets.len(),
                set_index < self.cache_map.len(),
                self.cache_map.len() == old(self).cache_map.len(),
                tags_of(d).no_duplicates(),
                forall|k: int|
                    0 <= k < self.cache_map.len() && k != set_index ==> #[trigger] self.cache_map@[k]
                        == old(self).cache_map@[k],
                forall|t: u64|
                    self.cache_map@[set_index as int]@.contains_key(t) <==> tags_of(d).contains(t),
                forall|j: int| 0 <= j < i ==> self.cache_map@[set_index as int]@[#[trigger] d[j].tag] == j,
                self.size == old(self).size,
                self.num_sets == old(self).num_sets,
                self.associativity == old(self).associativity,
                self.miss_counter == old(self).miss_counter,
            decreases n - i,
        {
            let t = self.sets[set_index][i].tag;
            proof {
                assert(tags_of(d)[i as int] == t);
                assert forall|j: int| 0 <= j < i implies d[j].tag != t by {
                    assert(tags_of(d)[j] == d[j].tag);
                }
            }
            self.cache_map[set_index].insert(t, i);
            i = i + 1;
        }
    }

    /// The number of sets.
    pub fn set_count(&self) -> (r: usize)
        requires
            self.wf(),
        ensures
            r == self@.sets.len(),
    {
        self.num_sets
    }

    /// The tags of set `index`, most recently used first.
    pub fn set_tags(&self, index: usize) -> (r: Vec<u64>)
        requires
            self.wf(),
            index < self@.sets.len(),
        ensures
            r@ == self@.sets[index as int],
    {
        let d = &self.sets[index];
        let mut out: Vec<u64> = Vec::new();
        let mut i: usize = 0;
        while i < d.len()
            invariant
                i <= d@.len(),
                out@ == tags_of(d@).take(i as int),
            decreases d@.len() - i,
        {
            out.push(d[i].tag);
            i = i + 1;
            assert(out@ =~= tags_of(d@).take(i as int));
        }
        assert(out@ =~= tags_of(d@));
        out
    }

    /// How many accesses missed.
    pub fn miss_count(&self) -> (r: u64)
        ensures
            r == self@.misses,
    {
        self.miss_counter
    }
}

} // verus!
