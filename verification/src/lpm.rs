//! Prefixes as numbers, and what it means to match one.
//!
//! A prefix is identified by its length and by the number that its leading
//! `len` bits spell; host bits play no part. Every store of this crate states
//! its lookups over the functions of this module.

use vstd::prelude::*;
use vstd::arithmetic::power2::{pow2, lemma_pow2_pos, lemma_pow2_adds};
use vstd::arithmetic::div_mod::{
    lemma_div_denominator, lemma_fundamental_div_mod, lemma_fundamental_div_mod_converse,
    lemma_multiply_divide_lt, lemma_mod_bound, lemma_basic_div,
};

verus! {

/// The identity of a prefix: its length and its leading bits, read as a number.
pub struct PrefixKey {
    pub len: nat,
    pub bits: nat,
}

/// The leading `len` bits of the `width`-bit number `x`.
pub open spec fn prefix_bits(x: nat, width: nat, len: nat) -> nat {
    x / pow2((width - len) as nat)
}

/// The `len` bits of the `width`-bit number `x` that start `start` bits from the top.
pub open spec fn nibble_bits(x: nat, width: nat, start: nat, len: nat) -> nat {
    prefix_bits(x, width, start + len) % pow2(len)
}

/// The key of the address `x` of `width` bits, cut to `len` bits.
pub open spec fn key_of(x: nat, width: nat, len: nat) -> PrefixKey {
    PrefixKey { len, bits: prefix_bits(x, width, len) }
}

/// The prefix of `k` that is `l` bits long.
pub open spec fn ancestor(k: PrefixKey, l: nat) -> PrefixKey {
    PrefixKey { len: l, bits: k.bits / pow2((k.len - l) as nat) }
}

/// Every address of `q` is an address of `p`.
pub open spec fn covers(p: PrefixKey, q: PrefixKey) -> bool {
    p.len <= q.len && ancestor(q, p.len) == p
}

/// The longest member of `keys` that covers `q` and is at most `l` bits long.
pub open spec fn longest_match_upto(keys: Set<PrefixKey>, q: PrefixKey, l: nat) -> Option<PrefixKey>
    decreases l,
{
    if keys.contains(ancestor(q, l)) {
        Some(ancestor(q, l))
    } else if l == 0 {
        None
    } else {
        longest_match_upto(keys, q, (l - 1) as nat)
    }
}

/// The longest member of `keys` that covers `q`.
pub open spec fn longest_match(keys: Set<PrefixKey>, q: PrefixKey) -> Option<PrefixKey> {
    longest_match_upto(keys, q, q.len)
}

/// The members of `keys` that cover `q` and are shorter than `l` bits, shortest first.
pub open spec fn matches_below(keys: Set<PrefixKey>, q: PrefixKey, l: nat) -> Seq<PrefixKey>
    decreases l,
{
    if l == 0 {
        Seq::empty()
    } else {
        let rest = matches_below(keys, q, (l - 1) as nat);
        if keys.contains(ancestor(q, (l - 1) as nat)) {
            rest.push(ancestor(q, (l - 1) as nat))
        } else {
            rest
        }
    }
}

/// All members of `keys` that cover `q`, shortest first.
pub open spec fn all_matches(keys: Set<PrefixKey>, q: PrefixKey) -> Seq<PrefixKey> {
    matches_below(keys, q, q.len + 1)
}

/// Cutting to `a` bits is cutting to `b` bits and then dropping `b - a` more.
pub proof fn lemma_prefix_bits_step(x: nat, width: nat, a: nat, b: nat)
    requires
        a <= b <= width,
    ensures
        prefix_bits(x, width, a) == prefix_bits(x, width, b) / pow2((b - a) as nat),
{
    let c = pow2((width - b) as nat);
    let d = pow2((b - a) as nat);
    lemma_pow2_pos((width - b) as nat);
    lemma_pow2_pos((b - a) as nat);
    lemma_pow2_adds((width - b) as nat, (b - a) as nat);
    lemma_div_denominator(x as int, c as int, d as int);
}

/// The leading `start + len` bits are the leading `start` bits followed by the nibble.
pub proof fn lemma_prefix_bits_split(x: nat, width: nat, start: nat, len: nat)
    requires
        start + len <= width,
    ensures
        prefix_bits(x, width, start + len) == prefix_bits(x, width, start) * pow2(len) + nibble_bits(
            x,
            width,
            start,
            len,
        ),
        nibble_bits(x, width, start, len) < pow2(len),
{
    let y = prefix_bits(x, width, start + len);
    lemma_pow2_pos(len);
    lemma_prefix_bits_step(x, width, start, start + len);
    lemma_fundamental_div_mod(y as int, pow2(len) as int);
    lemma_mod_bound(y as int, pow2(len) as int);
    assert(pow2(len) * (y / pow2(len)) == (y / pow2(len)) * pow2(len)) by (nonlinear_arith);
}

/// A number of `width` bits has leading `len` bits below `2^len`.
pub proof fn lemma_prefix_bits_bound(x: nat, width: nat, len: nat)
    requires
        len <= width,
        x < pow2(width),
    ensures
        prefix_bits(x, width, len) < pow2(len),
{
    lemma_pow2_pos((width - len) as nat);
    lemma_pow2_adds((width - len) as nat, len);
    lemma_multiply_divide_lt(x as int, pow2((width - len) as nat) as int, pow2(len) as int);
}

/// A number of `width` bits cut to no bits is zero, and cut to all its bits is itself.
pub proof fn lemma_prefix_bits_ends(x: nat, width: nat)
    requires
        x < pow2(width),
    ensures
        prefix_bits(x, width, 0) == 0,
        prefix_bits(x, width, width) == x,
{
    lemma_basic_div(x as int, pow2(width) as int);
    vstd::arithmetic::power2::lemma2_to64();
    assert((width - width) as nat == 0);
    assert(x / 1 == x);
}

/// `high * 2^len + low` with `low < 2^len` splits back into `high` and `low`.
pub proof fn lemma_join_split(high: nat, low: nat, len: nat)
    requires
        low < pow2(len),
    ensures
        (high * pow2(len) + low) / pow2(len) == high,
        (high * pow2(len) + low) % pow2(len) == low,
{
    lemma_pow2_pos(len);
    assert(high * pow2(len) == pow2(len) * high) by (nonlinear_arith);
    lemma_fundamental_div_mod_converse(
        (high * pow2(len) + low) as int,
        pow2(len) as int,
        high as int,
        low as int,
    );
}

/// The key of an address at `len` bits is the ancestor of its key at any greater length.
pub proof fn lemma_key_ancestor(x: nat, width: nat, a: nat, b: nat)
    requires
        a <= b <= width,
    ensures
        ancestor(key_of(x, width, b), a) == key_of(x, width, a),
        covers(key_of(x, width, a), key_of(x, width, b)),
{
    lemma_prefix_bits_step(x, width, a, b);
}

/// Ancestors of ancestors are ancestors.
pub proof fn lemma_ancestor_twice(k: PrefixKey, a: nat, b: nat)
    requires
        a <= b <= k.len,
    ensures
        ancestor(ancestor(k, b), a) == ancestor(k, a),
{
    let c = pow2((k.len - b) as nat);
    let d = pow2((b - a) as nat);
    lemma_pow2_pos((k.len - b) as nat);
    lemma_pow2_pos((b - a) as nat);
    lemma_pow2_adds((k.len - b) as nat, (b - a) as nat);
    lemma_div_denominator(k.bits as int, c as int, d as int);
}

/// A key is its own ancestor at its own length.
pub proof fn lemma_ancestor_self(k: PrefixKey)
    ensures
        ancestor(k, k.len) == k,
        covers(k, k),
{
    vstd::arithmetic::power2::lemma2_to64();
    assert((k.len - k.len) as nat == 0);
    assert(k.bits / 1 == k.bits);
}

/// Covering is transitive.
pub proof fn lemma_covers_transitive(p: PrefixKey, q: PrefixKey, r: PrefixKey)
    requires
        covers(p, q),
        covers(q, r),
    ensures
        covers(p, r),
{
    lemma_ancestor_twice(r, p.len, q.len);
}

/// What `longest_match_upto` returns is a member that covers the query, is at most
/// `l` bits long, and is no shorter than any other such member; it returns nothing
/// only where there is no such member.
pub proof fn lemma_longest_match_upto(keys: Set<PrefixKey>, q: PrefixKey, l: nat)
    requires
        l <= q.len,
    ensures
        match longest_match_upto(keys, q, l) {
            Some(p) => keys.contains(p) && covers(p, q) && p.len <= l && forall|o: PrefixKey|
                keys.contains(o) && covers(o, q) && o.len <= l ==> o.len <= p.len,
            None => forall|o: PrefixKey| keys.contains(o) && covers(o, q) ==> o.len > l,
        },
    decreases l,
{
    if keys.contains(ancestor(q, l)) {
    } else if l == 0 {
    } else {
        lemma_longest_match_upto(keys, q, (l - 1) as nat);
    }
}

/// The longest match covers the query, is stored, and
/// no stored prefix that covers the query is longer; nothing is returned only
/// where no stored prefix covers the query.
pub proof fn lemma_longest_match(keys: Set<PrefixKey>, q: PrefixKey)
    ensures
        match longest_match(keys, q) {
            Some(p) => keys.contains(p) && covers(p, q) && forall|o: PrefixKey|
                keys.contains(o) && covers(o, q) ==> o.len <= p.len,
            None => forall|o: PrefixKey| keys.contains(o) ==> !covers(o, q),
        },
{
    lemma_longest_match_upto(keys, q, q.len);
}

/// A stored prefix that covers the query and is no shorter than any other such
/// prefix is the longest match.
pub proof fn lemma_longest_match_unique(keys: Set<PrefixKey>, q: PrefixKey, p: PrefixKey)
    requires
        keys.contains(p),
        covers(p, q),
        forall|o: PrefixKey| keys.contains(o) && covers(o, q) ==> o.len <= p.len,
    ensures
        longest_match(keys, q) == Some(p),
{
    lemma_longest_match(keys, q);
}

/// The matches below `l` are stored, cover the query, grow strictly in length,
/// stay below `l`, and miss no stored prefix below `l` that covers the query.
pub proof fn lemma_matches_below(keys: Set<PrefixKey>, q: PrefixKey, l: nat)
    requires
        l <= q.len + 1,
    ensures
        forall|i: int|
            0 <= i < matches_below(keys, q, l).len() ==> {
                let m = #[trigger] matches_below(keys, q, l)[i];
                keys.contains(m) && covers(m, q) && m.len < l
            },
        forall|i: int, j: int|
            0 <= i < j < matches_below(keys, q, l).len() ==> (#[trigger] matches_below(keys, q, l)[i]).len < (
            #[trigger] matches_below(keys, q, l)[j]).len,
        forall|o: PrefixKey|
            keys.contains(o) && covers(o, q) && o.len < l ==> matches_below(keys, q, l).contains(o),
    decreases l,
{
    if l > 0 {
        let rest = matches_below(keys, q, (l - 1) as nat);
        let a = ancestor(q, (l - 1) as nat);
        let all = matches_below(keys, q, l);
        lemma_matches_below(keys, q, (l - 1) as nat);
        assert forall|o: PrefixKey| keys.contains(o) && covers(o, q) && o.len < l implies all.contains(o) by {
            if o.len < l - 1 {
                assert(rest.contains(o));
                let i = choose|i: int| 0 <= i < rest.len() && rest[i] == o;
                assert(all[i] == o);
            } else {
                assert(o == a);
                assert(all[all.len() - 1] == a);
            }
        }
    }
}

/// The matches of a query come in strictly growing
/// length, and the last of them is the longest match; there is none exactly
/// where there is no longest match.
pub proof fn lemma_all_matches(keys: Set<PrefixKey>, q: PrefixKey)
    ensures
        forall|i: int, j: int|
            0 <= i < j < all_matches(keys, q).len() ==> (#[trigger] all_matches(keys, q)[i]).len < (
            #[trigger] all_matches(keys, q)[j]).len,
        all_matches(keys, q).len() == 0 <==> longest_match(keys, q).is_none(),
        all_matches(keys, q).len() > 0 ==> longest_match(keys, q) == Some(all_matches(keys, q).last()),
{
    let all = all_matches(keys, q);
    lemma_matches_below(keys, q, q.len + 1);
    lemma_longest_match(keys, q);
    if all.len() > 0 {
        let p = all.last();
        assert(p == all[all.len() - 1]);
        assert forall|o: PrefixKey| keys.contains(o) && covers(o, q) implies o.len <= p.len by {
            assert(all.contains(o));
            let i = choose|i: int| 0 <= i < all.len() && all[i] == o;
            if i < all.len() - 1 {
                assert(all[i].len < all[all.len() - 1].len);
            }
        }
        lemma_longest_match_unique(keys, q, p);
    } else {
        match longest_match(keys, q) {
            Some(p) => {
                assert(all.contains(p));
            },
            None => {},
        }
    }
}

/// Where no stored prefix covers the query with a length above `lo` and up to
/// `hi`, the longest match up to `hi` is the longest match up to `lo`.
pub proof fn lemma_no_longer_match(keys: Set<PrefixKey>, q: PrefixKey, lo: nat, hi: nat)
    requires
        lo <= hi,
        forall|l: nat| lo < l <= hi ==> !keys.contains(#[trigger] ancestor(q, l)),
    ensures
        longest_match_upto(keys, q, hi) == longest_match_upto(keys, q, lo),
        matches_below(keys, q, hi + 1) == matches_below(keys, q, lo + 1),
    decreases hi - lo,
{
    if lo < hi {
        assert(!keys.contains(ancestor(q, hi)));
        lemma_no_longer_match(keys, q, lo, (hi - 1) as nat);
    }
}

/// A query whose own key is stored matches itself.
pub proof fn lemma_exact_match(keys: Set<PrefixKey>, q: PrefixKey)
    requires
        keys.contains(q),
    ensures
        longest_match(keys, q) == Some(q),
{
    lemma_ancestor_self(q);
}

/// Where the prefixes of the query of every length from 1 to `l - 1` are
/// stored, the matches below `l` are these prefixes, after the prefix of no
/// bits if that is stored too.
pub proof fn lemma_nested_matches(keys: Set<PrefixKey>, q: PrefixKey, l: nat)
    requires
        1 <= l <= q.len + 1,
        forall|m: nat| 1 <= m < l ==> keys.contains(#[trigger] ancestor(q, m)),
    ensures
        ({
            let first: nat = if keys.contains(ancestor(q, 0)) {
                0
            } else {
                1
            };
            &&& matches_below(keys, q, l).len() == l - first
            &&& forall|i: int|
                0 <= i < l - first ==> #[trigger] matches_below(keys, q, l)[i] == ancestor(q, (i + first) as nat)
        }),
    decreases l,
{
    if l > 1 {
        lemma_nested_matches(keys, q, (l - 1) as nat);
        assert(keys.contains(ancestor(q, (l - 1) as nat)));
    } else {
        assert(matches_below(keys, q, 0).len() == 0);
    }
}

} // verus!
