//! The resident lines of one lease-cache set, and how a step changes them.

use crate::cache::CacheBlock;
use vstd::prelude::*;

verus! {

/// A line stays through an aging step only if its countdown, once
/// decremented, is still above the floor of one.
pub open spec fn survives_aging(b: CacheBlock) -> bool {
    b.remaining_lease - 1 > 1
}

/// A line one step older: one step less of lease, one step more of tenancy.
pub open spec fn aged(b: CacheBlock) -> CacheBlock {
    CacheBlock { remaining_lease: (b.remaining_lease - 1) as u64, tenancy: (b.tenancy + 1) as u64, ..b }
}

/// The lines of a set after one aging step, in the order they had.
pub open spec fn age_lines(s: Seq<CacheBlock>) -> Seq<CacheBlock>
    decreases s.len(),
{
    if s.len() == 0 {
        Seq::empty()
    } else {
        let rest = age_lines(s.drop_last());
        if survives_aging(s.last()) {
            rest.push(aged(s.last()))
        } else {
            rest
        }
    }
}

/// Whether some resident line carries `tag`.
pub open spec fn holds_tag(s: Seq<CacheBlock>, tag: u64) -> bool {
    exists|i: int| 0 <= i < s.len() && s[i].tag == tag
}

/// The position of the line that carries `tag`, if `holds_tag(s, tag)`.
pub open spec fn position_of_tag(s: Seq<CacheBlock>, tag: u64) -> int {
    choose|i: int| 0 <= i < s.len() && s[i].tag == tag
}

/// No two resident lines carry the same tag.
pub open spec fn tags_unique(s: Seq<CacheBlock>) -> bool {
    forall|i: int, j: int|
        0 <= i < s.len() && 0 <= j < s.len() && #[trigger] s[i].tag == #[trigger] s[j].tag ==> i
            == j
}

/// Every resident line has been resident for fewer than `bound` steps.
pub open spec fn tenancies_below(s: Seq<CacheBlock>, bound: nat) -> bool {
    forall|i: int| 0 <= i < s.len() ==> #[trigger] s[i].tenancy < bound
}

/// The line carrying `tag` gets `lease` as its new countdown.
pub open spec fn refreshed(s: Seq<CacheBlock>, tag: u64, lease: u64) -> Seq<CacheBlock> {
    let i = position_of_tag(s, tag);
    s.update(i, CacheBlock { remaining_lease: lease, ..s[i] })
}

/// A block as it enters a set: resident for no step yet.
pub open spec fn admitted(b: CacheBlock) -> CacheBlock {
    CacheBlock { tenancy: 0, ..b }
}

/// `x` is some surviving line of `s`, aged.
pub open spec fn aged_survivor_of(s: Seq<CacheBlock>, x: CacheBlock) -> bool {
    exists|k: int| 0 <= k < s.len() && survives_aging(s[k]) && x == aged(s[k])
}

/// `x` stands somewhere in `s`.
pub open spec fn appears_in(s: Seq<CacheBlock>, x: CacheBlock) -> bool {
    exists|i: int| 0 <= i < s.len() && s[i] == x
}

/// The lines after aging are exactly the aged survivors.
pub proof fn lemma_age_lines_members(s: Seq<CacheBlock>)
    ensures
        age_lines(s).len() <= s.len(),
        forall|i: int|
            0 <= i < age_lines(s).len() ==> aged_survivor_of(s, #[trigger] age_lines(s)[i]),
        forall|k: int|
            0 <= k < s.len() && survives_aging(#[trigger] s[k]) ==> appears_in(
                age_lines(s),
                aged(s[k]),
            ),
    decreases s.len(),
{
    if s.len() > 0 {
        let p = s.drop_last();
        lemma_age_lines_members(p);
        let rest = age_lines(p);
        let a = age_lines(s);
        assert forall|i: int| 0 <= i < a.len() implies aged_survivor_of(s, #[trigger] a[i]) by {
            if i < rest.len() {
                assert(a[i] == rest[i]);
                assert(aged_survivor_of(p, rest[i]));
                let k = choose|k: int|
                    0 <= k < p.len() && survives_aging(p[k]) && rest[i] == aged(p[k]);
                assert(s[k] == p[k]);
            } else {
                let k = s.len() - 1;
                assert(a[i] == aged(s[k]));
            }
        }
        assert forall|k: int| 0 <= k < s.len() && survives_aging(#[trigger] s[k]) implies appears_in(
            a,
            aged(s[k]),
        ) by {
            if k < p.len() {
                assert(s[k] == p[k]);
                assert(survives_aging(p[k]));
                assert(appears_in(rest, aged(p[k])));
                let i = choose|i: int| 0 <= i < rest.len() && rest[i] == aged(p[k]);
                assert(a[i] == rest[i]);
            } else {
                assert(a[a.len() - 1] == aged(s[k]));
            }
        }
    }
}

/// Aging keeps tags unique.
pub proof fn lemma_age_lines_unique(s: Seq<CacheBlock>)
    requires
        tags_unique(s),
    ensures
        tags_unique(age_lines(s)),
    decreases s.len(),
{
    if s.len() > 0 {
        let p = s.drop_last();
        assert forall|i: int, j: int|
            0 <= i < p.len() && 0 <= j < p.len() && #[trigger] p[i].tag == #[trigger] p[j].tag implies i
            == j by {
            assert(p[i] == s[i] && p[j] == s[j]);
        }
        lemma_age_lines_unique(p);
        lemma_age_lines_members(p);
        let rest = age_lines(p);
        let a = age_lines(s);
        if survives_aging(s.last()) {
            let last = s.len() - 1;
            assert forall|i: int| 0 <= i < rest.len() implies #[trigger] rest[i].tag != s[last].tag by {
                assert(aged_survivor_of(p, rest[i]));
                let k = choose|k: int|
                    0 <= k < p.len() && survives_aging(p[k]) && rest[i] == aged(p[k]);
                assert(s[k] == p[k]);
            }
            assert(a == rest.push(aged(s[last])));
            assert forall|i: int, j: int|
                0 <= i < a.len() && 0 <= j < a.len() && #[trigger] a[i].tag == #[trigger] a[j].tag implies i
                == j by {
                if i < rest.len() && j < rest.len() {
                    assert(a[i] == rest[i] && a[j] == rest[j]);
                } else if i < rest.len() {
                    assert(a[i] == rest[i]);
                } else if j < rest.len() {
                    assert(a[j] == rest[j]);
                }
            }
        } else {
            assert(a == rest);
        }
    }
}

/// Aging adds no tag, keeps tags unique, and raises every tenancy by one.
pub proof fn lemma_age_lines(s: Seq<CacheBlock>, bound: nat)
    ensures
        age_lines(s).len() <= s.len(),
        forall|t: u64| holds_tag(age_lines(s), t) ==> holds_tag(s, t),
        tags_unique(s) ==> tags_unique(age_lines(s)),
        tenancies_below(s, bound) && bound <= u64::MAX ==> tenancies_below(age_lines(s), bound + 1),
{
    lemma_age_lines_members(s);
    let a = age_lines(s);
    assert forall|t: u64| holds_tag(a, t) implies holds_tag(s, t) by {
        let i = choose|i: int| 0 <= i < a.len() && a[i].tag == t;
        assert(aged_survivor_of(s, a[i]));
        let k = choose|k: int| 0 <= k < s.len() && survives_aging(s[k]) && a[i] == aged(s[k]);
        assert(s[k].tag == t);
    }
    if tags_unique(s) {
        lemma_age_lines_unique(s);
    }
    if tenancies_below(s, bound) && bound <= u64::MAX {
        assert forall|i: int| 0 <= i < a.len() implies #[trigger] a[i].tenancy < bound + 1 by {
            assert(aged_survivor_of(s, a[i]));
            let k = choose|k: int| 0 <= k < s.len() && survives_aging(s[k]) && a[i] == aged(s[k]);
            assert(s[k].tenancy < bound);
        }
    }
}

/// With unique tags, the line found by `holds_tag` is the one at
/// `position_of_tag`.
pub proof fn lemma_position_of_tag(s: Seq<CacheBlock>, i: int)
    requires
        tags_unique(s),
        0 <= i < s.len(),
    ensures
        holds_tag(s, s[i].tag),
        position_of_tag(s, s[i].tag) == i,
{
    assert(holds_tag(s, s[i].tag));
}

} // verus!
