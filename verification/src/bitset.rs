//! Sets of bit positions and how to count in them.
//!
//! A bitmap is modelled by the set of positions at which it holds a one.
//! Position 0 is the least significant bit.

use vstd::prelude::*;

verus! {

/// The number of members of `s` in the half-open range `lo..hi`.
pub open spec fn count_in(s: Set<nat>, lo: nat, hi: nat) -> nat
    decreases hi - lo,
{
    if lo >= hi {
        0
    } else {
        (if s.contains(lo) { 1nat } else { 0nat }) + count_in(s, lo + 1, hi)
    }
}

/// Every member of `s` is below `w`.
pub open spec fn below(s: Set<nat>, w: nat) -> bool {
    forall|i: nat| s.contains(i) ==> i < w
}

/// Zero-based position, among the members of `s` below `w` taken from the
/// highest downwards, of the member `p`.
pub open spec fn rank(s: Set<nat>, p: nat, w: nat) -> int {
    count_in(s, p, w) - 1
}

pub proof fn lemma_count_bound(s: Set<nat>, lo: nat, hi: nat)
    ensures
        count_in(s, lo, hi) <= hi - lo || (lo >= hi && count_in(s, lo, hi) == 0),
    decreases hi - lo,
{
    if lo < hi {
        lemma_count_bound(s, lo + 1, hi);
    }
}

/// Counting over `a..c` is counting over `a..b` and then `b..c`.
pub proof fn lemma_count_split(s: Set<nat>, a: nat, b: nat, c: nat)
    requires
        a <= b <= c,
    ensures
        count_in(s, a, c) == count_in(s, a, b) + count_in(s, b, c),
    decreases b - a,
{
    if a < b {
        lemma_count_split(s, a + 1, b, c);
    }
}

/// A range without members counts zero.
pub proof fn lemma_count_none(s: Set<nat>, lo: nat, hi: nat)
    requires
        forall|i: nat| lo <= i < hi ==> !s.contains(i),
    ensures
        count_in(s, lo, hi) == 0,
    decreases hi - lo,
{
    if lo < hi {
        lemma_count_none(s, lo + 1, hi);
    }
}

/// A range that holds the member `p` counts at least one.
pub proof fn lemma_count_member(s: Set<nat>, lo: nat, hi: nat, p: nat)
    requires
        lo <= p < hi,
        s.contains(p),
    ensures
        count_in(s, lo, hi) >= 1,
    decreases hi - lo,
{
    if lo < p {
        lemma_count_member(s, lo + 1, hi, p);
    }
}

/// If `t` is `s` moved down by `n` positions, counts move with it.
pub proof fn lemma_count_shifted(s: Set<nat>, t: Set<nat>, n: nat, lo: nat, hi: nat)
    requires
        forall|i: nat| lo <= i < hi ==> (#[trigger] t.contains(i) <==> s.contains(i + n)),
    ensures
        count_in(t, lo, hi) == count_in(s, lo + n, hi + n),
    decreases hi - lo,
{
    if lo < hi {
        assert(t.contains(lo) <==> s.contains(lo + n));
        lemma_count_shifted(s, t, n, lo + 1, hi);
    }
}

/// Adding the new member `p` raises by one the count of each range that holds `p`,
/// and leaves the others as they were.
pub proof fn lemma_count_insert(s: Set<nat>, p: nat, lo: nat, hi: nat)
    requires
        !s.contains(p),
    ensures
        count_in(s.insert(p), lo, hi) == count_in(s, lo, hi) + (if lo <= p < hi { 1nat } else { 0nat }),
    decreases hi - lo,
{
    if lo < hi {
        lemma_count_insert(s, p, lo + 1, hi);
    }
}

/// The rank of a member is a valid index once the whole count is known.
pub proof fn lemma_rank_in_range(s: Set<nat>, p: nat, w: nat)
    requires
        p < w,
        s.contains(p),
    ensures
        0 <= rank(s, p, w) < count_in(s, 0, w),
{
    lemma_count_member(s, p, w, p);
    lemma_count_split(s, 0, p, w);
}

/// What adding the new member `p` does to ranks: `p` takes the rank that counts
/// the members above it, members above `p` keep theirs, members below move up by one.
pub proof fn lemma_rank_insert(s: Set<nat>, p: nat, q: nat, w: nat)
    requires
        p < w,
        q < w,
        !s.contains(p),
        s.contains(q),
    ensures
        rank(s.insert(p), p, w) == count_in(s, p, w),
        q > p ==> rank(s.insert(p), q, w) == rank(s, q, w) && rank(s, q, w) < count_in(s, p, w),
        q < p ==> rank(s.insert(p), q, w) == rank(s, q, w) + 1 && rank(s, q, w) >= count_in(s, p, w),
{
    lemma_count_insert(s, p, p, w);
    lemma_count_insert(s, p, q, w);
    if q > p {
        lemma_count_split(s, p, q, w);
        lemma_count_member(s, q, w, q);
    } else {
        lemma_count_split(s, q, p, w);
        lemma_count_member(s, q, p, q);
    }
}

/// Of two members the higher one has the lower rank.
pub proof fn lemma_rank_order(s: Set<nat>, p: nat, q: nat, w: nat)
    requires
        p < q < w,
        s.contains(p),
    ensures
        rank(s, q, w) < rank(s, p, w),
{
    lemma_count_split(s, p, q, w);
    lemma_count_member(s, p, q, p);
}

/// Every number below the count of `lo..w` is the rank of a member in that range.
pub proof fn lemma_rank_onto(s: Set<nat>, lo: nat, w: nat, k: int) -> (p: nat)
    requires
        lo <= w,
        0 <= k < count_in(s, lo, w),
    ensures
        lo <= p < w,
        s.contains(p),
        rank(s, p, w) == k,
    decreases w - lo,
{
    if k < count_in(s, lo + 1, w) {
        lemma_rank_onto(s, lo + 1, w, k)
    } else {
        lo
    }
}

} // verus!
