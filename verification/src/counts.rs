//! Counting occurrences in spec sequences, with the lemmas the union-find
//! component and the closure tracker need: how counts change when one entry
//! is updated, when a whole class of entries is renamed, and how counts of
//! distinct values bound each other.

use vstd::prelude::*;

verus! {

/// Number of entries of `s` equal to `r`.
pub open spec fn count_eq(s: Seq<int>, r: int) -> nat
    decreases s.len(),
{
    if s.len() == 0 {
        0
    } else {
        count_eq(s.drop_last(), r) + (if s.last() == r {
            1nat
        } else {
            0nat
        })
    }
}

/// Every entry of `s` equal to `l` renamed to `w`; others kept.
pub open spec fn remap(s: Seq<int>, l: int, w: int) -> Seq<int> {
    Seq::new(s.len(), |i: int| if s[i] == l { w } else { s[i] })
}

pub proof fn lemma_count_push(s: Seq<int>, v: int, r: int)
    ensures
        count_eq(s.push(v), r) == count_eq(s, r) + (if v == r {
            1int
        } else {
            0int
        }),
{
    assert(s.push(v).drop_last() =~= s);
}

pub proof fn lemma_count_absent(s: Seq<int>, r: int)
    requires
        forall|i: int| 0 <= i < s.len() ==> s[i] != r,
    ensures
        count_eq(s, r) == 0,
    decreases s.len(),
{
    if s.len() > 0 {
        lemma_count_absent(s.drop_last(), r);
    }
}

pub proof fn lemma_count_le_len(s: Seq<int>, r: int)
    ensures
        count_eq(s, r) <= s.len(),
    decreases s.len(),
{
    if s.len() > 0 {
        lemma_count_le_len(s.drop_last(), r);
    }
}

pub proof fn lemma_count_remap(s: Seq<int>, l: int, w: int, r: int)
    requires
        l != w,
    ensures
        r == w ==> count_eq(remap(s, l, w), r) == count_eq(s, w) + count_eq(s, l),
        r == l ==> count_eq(remap(s, l, w), r) == 0,
        r != w && r != l ==> count_eq(remap(s, l, w), r) == count_eq(s, r),
    decreases s.len(),
{
    if s.len() > 0 {
        assert(remap(s, l, w).drop_last() =~= remap(s.drop_last(), l, w));
        lemma_count_remap(s.drop_last(), l, w, r);
    }
}

pub proof fn lemma_count_distinct_pair(s: Seq<int>, r1: int, r2: int)
    requires
        r1 != r2,
    ensures
        count_eq(s, r1) + count_eq(s, r2) <= s.len(),
    decreases s.len(),
{
    if s.len() > 0 {
        lemma_count_distinct_pair(s.drop_last(), r1, r2);
    }
}

} // verus!
