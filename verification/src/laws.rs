//! What holds of the stores as a whole.

use vstd::prelude::*;
use vstd::arithmetic::power2::pow2;
use crate::bitset::{count_in, rank, lemma_rank_onto, lemma_rank_order};
use crate::common::{AddressFamily, NoMeta, Prefix, Trie};
use crate::radixtrie::RadixTrie;
use crate::error::StoreError;
use crate::lpm::{
    PrefixKey, all_matches, ancestor, covers, longest_match, lemma_all_matches, lemma_exact_match,
    lemma_longest_match, lemma_nested_matches,
};
use crate::treebitmap::stride::{child_pos, pfx_width, ptr_width, slot_id, slot_pos, valid_slot, lemma_slot_pos};
use crate::treebitmap::tree::{NodePlace, TreeBitMap};

verus! {

/// In every node of a well-formed tree each vector
/// holds as many entries as its bitmap holds ones.
pub proof fn lemma_vectors_match_bitmaps<AF: AddressFamily, T>(tree: TreeBitMap<AF, T>, i: int)
    requires
        tree.wf(),
        0 <= i < tree.nodes@.len(),
    ensures
        count_in(tree.nodes@[i].pfx_bits(), 0, pfx_width(tree.nodes@[i].stride_len())) == tree.nodes@[i].pfx_vec().len(),
        count_in(tree.nodes@[i].ptr_bits(), 0, ptr_width(tree.nodes@[i].stride_len())) == tree.nodes@[i].ptr_vec().len(),
{
    assert(tree.node_inv(i));
}

/// Where the slot `(nibble, len)` of a node is taken,
/// the entry of the prefix vector at the slot's rank in the bitmap is the stored
/// prefix that ends with that nibble, with its canonical network as sort key.
pub proof fn lemma_prefix_vector_order<AF: AddressFamily, T>(tree: TreeBitMap<AF, T>, i: int, nibble: nat, len: nat)
    requires
        tree.wf(),
        0 <= i < tree.nodes@.len(),
        valid_slot(tree.nodes@[i].stride_len(), nibble, len),
        tree.nodes@[i].pfx_bits().contains(slot_pos(tree.nodes@[i].stride_len(), nibble, len)),
    ensures
        ({
            let node = tree.nodes@[i];
            let place = tree.places@[i];
            let at = rank(
                node.pfx_bits(),
                slot_pos(node.stride_len(), nibble, len),
                pfx_width(node.stride_len()),
            );
            &&& 0 <= at < node.pfx_vec().len()
            &&& node.pfx_vec()[at].1 < tree.prefixes@.len()
            &&& tree.prefixes@[node.pfx_vec()[at].1 as int].key() == PrefixKey {
                len: tree.start(place.level) + len,
                bits: place.path * pow2(len) + nibble,
            }
            &&& node.pfx_vec()[at].0.value() == place.path * pow2(len) + nibble
        }),
{
    let node = tree.nodes@[i];
    assert(tree.node_inv(i));
    assert(tree.slot_inv(i, nibble, len));
    tree.lemma_level(tree.places@[i].level);
    crate::treebitmap::stride::lemma_slot_pos(node.stride_len(), nibble, len);
    crate::bitset::lemma_rank_in_range(
        node.pfx_bits(),
        slot_pos(node.stride_len(), nibble, len),
        pfx_width(node.stride_len()),
    );
}

/// Where a node has a child for the full nibble
/// `nibble`, the entry of the pointer vector at the rank of the child's bit is
/// the arena index of the node one level down on the path that the nibble extends.
pub proof fn lemma_pointer_vector_order<AF: AddressFamily, T>(tree: TreeBitMap<AF, T>, i: int, nibble: nat)
    requires
        tree.wf(),
        0 <= i < tree.nodes@.len(),
        nibble < ptr_width(tree.nodes@[i].stride_len()),
        tree.nodes@[i].ptr_bits().contains(child_pos(tree.nodes@[i].stride_len(), nibble)),
    ensures
        ({
            let node = tree.nodes@[i];
            let place = tree.places@[i];
            let at = rank(node.ptr_bits(), child_pos(node.stride_len(), nibble), ptr_width(node.stride_len()));
            &&& 0 <= at < node.ptr_vec().len()
            &&& node.ptr_vec()[at].0 == slot_id(nibble, node.stride_len())
            &&& node.ptr_vec()[at].1 < tree.nodes@.len()
            &&& tree.places@[node.ptr_vec()[at].1 as int] == NodePlace {
                level: place.level + 1,
                path: place.path * pow2(node.stride_len()) + nibble,
                parent: i,
            }
        }),
{
    let node = tree.nodes@[i];
    assert(tree.node_inv(i));
    assert(tree.child_inv(i, nibble));
    tree.lemma_level(tree.places@[i].level);
    crate::treebitmap::stride::lemma_slot_pos(node.stride_len(), nibble, node.stride_len());
    crate::bitset::lemma_rank_in_range(
        node.ptr_bits(),
        child_pos(node.stride_len(), nibble),
        ptr_width(node.stride_len()),
    );
}

/// A tree-bitmap and a binary trie that store the same
/// keys return prefixes with the same key for every query.
pub proof fn lemma_trie_agreement<'a, AF: AddressFamily, T>(
    tree: TreeBitMap<AF, T>,
    trie: Trie<'a, AF, T>,
    q: Prefix<AF, NoMeta>,
    from_tree: Option<&Prefix<AF, T>>,
    from_trie: Option<&'a Prefix<AF, T>>,
)
    requires
        tree.wf(),
        trie.wf(),
        tree.keys() == trie.keys(),
        tree.is_longest_match(q.key(), from_tree),
        trie.is_longest_match(q.key(), from_trie),
    ensures
        from_tree.is_some() == from_trie.is_some(),
        from_tree.is_some() ==> from_tree.unwrap().key() == from_trie.unwrap().key(),
{
}

/// The second of two inserts of one network
/// and length reports a duplicate and leaves every lookup as it was.
pub proof fn lemma_insert_twice<AF: AddressFamily, T>(
    before: TreeBitMap<AF, T>,
    once: TreeBitMap<AF, T>,
    twice: TreeBitMap<AF, T>,
    first: Prefix<AF, T>,
    second: Prefix<AF, T>,
    r1: Result<(), StoreError>,
    r2: Result<(), StoreError>,
    q: PrefixKey,
)
    requires
        second.key() == first.key(),
        once.inserted(before, first, r1),
        twice.inserted(once, second, r2),
    ensures
        first.valid() ==> r2 == Err::<(), StoreError>(StoreError::Duplicate),
        twice.prefixes@ == once.prefixes@,
        longest_match(twice.keys(), q) == longest_match(once.keys(), q),
        all_matches(twice.keys(), q) == all_matches(once.keys(), q),
{
    if r1.is_ok() {
        let j = before.prefixes@.len() as int;
        assert(once.prefixes@[j].key() == first.key());
    }
    if first.valid() {
        assert(once.keys().contains(first.key()));
    }
    assert(twice.keys() =~= once.keys());
}

/// A tree-bitmap and a path-compressed
/// trie that store the same keys return prefixes with the same key for every query.
pub proof fn lemma_radix_agreement<'a, AF: AddressFamily, T>(
    tree: TreeBitMap<AF, T>,
    trie: RadixTrie<'a, AF, T>,
    q: Prefix<AF, NoMeta>,
    from_tree: Option<&Prefix<AF, T>>,
    from_trie: Option<&'a Prefix<AF, T>>,
)
    requires
        tree.wf(),
        trie.wf(),
        tree.keys() == trie.keys(),
        tree.is_longest_match(q.key(), from_tree),
        trie.is_longest_match(q.key(), from_trie),
    ensures
        from_tree.is_some() == from_trie.is_some(),
        from_tree.is_some() ==> from_tree.unwrap().key() == from_trie.unwrap().key(),
{
}

/// The prefix that a lookup returns is stored and
/// covers the query, and no stored prefix that covers the query is longer; a
/// lookup returns nothing only where no stored prefix covers the query.
pub proof fn lemma_longest_match_correct<AF: AddressFamily, T>(
    tree: TreeBitMap<AF, T>,
    q: Prefix<AF, NoMeta>,
    found: Option<&Prefix<AF, T>>,
)
    requires
        tree.wf(),
        tree.is_longest_match(q.key(), found),
    ensures
        match found {
            Some(p) => tree.stores(*p) && covers(p.key(), q.key()) && forall|j: int|
                0 <= j < tree.prefixes@.len() && covers(#[trigger] tree.prefixes@[j].key(), q.key())
                    ==> tree.prefixes@[j].len <= p.len,
            None => forall|j: int|
                0 <= j < tree.prefixes@.len() ==> !covers(#[trigger] tree.prefixes@[j].key(), q.key()),
        },
{
    lemma_longest_match(tree.keys(), q.key());
    assert forall|j: int| 0 <= j < tree.prefixes@.len() implies tree.keys().contains(
        #[trigger] tree.prefixes@[j].key(),
    ) by {}
}

/// The prefixes that a lookup of all matches returns
/// grow strictly in length, and the last of them is the prefix that a lookup of
/// the longest match returns; there is none exactly where that lookup returns nothing.
pub proof fn lemma_all_matches_end_in_longest<AF: AddressFamily, T>(
    tree: TreeBitMap<AF, T>,
    q: Prefix<AF, NoMeta>,
    all: Seq<&Prefix<AF, T>>,
    longest: Option<&Prefix<AF, T>>,
)
    requires
        tree.wf(),
        tree.is_all_matches(q.key(), all),
        tree.is_longest_match(q.key(), longest),
    ensures
        forall|i: int, j: int| 0 <= i < j < all.len() ==> (#[trigger] all[i]).len < (#[trigger] all[j]).len,
        all.len() == 0 <==> longest.is_none(),
        all.len() > 0 ==> *all.last() == *longest.unwrap(),
{
    let keys = tree.keys();
    lemma_all_matches(keys, q.key());
    assert forall|i: int, j: int| 0 <= i < j < all.len() implies (#[trigger] all[i]).len < (#[trigger] all[j]).len by {
        assert(all[i].key() == all_matches(keys, q.key())[i]);
        assert(all[j].key() == all_matches(keys, q.key())[j]);
    }
    if all.len() > 0 {
        let last = all.last();
        let best = longest.unwrap();
        assert(last == all[all.len() - 1]);
        assert(last.key() == best.key());
        let i = choose|i: int| 0 <= i < tree.prefixes@.len() && tree.prefixes@[i] == *last;
        let j = choose|j: int| 0 <= j < tree.prefixes@.len() && tree.prefixes@[j] == *best;
        tree.lemma_keys_distinct(i, j);
    }
}

/// No node hangs in two places: two child slots that point to one node are one slot.
pub proof fn lemma_one_parent<AF: AddressFamily, T>(tree: TreeBitMap<AF, T>, i: int, v: nat, j: int, w: nat)
    requires
        tree.wf(),
        0 <= i < tree.nodes@.len(),
        0 <= j < tree.nodes@.len(),
        v < ptr_width(tree.nodes@[i].stride_len()),
        w < ptr_width(tree.nodes@[j].stride_len()),
        tree.nodes@[i].has_child(v),
        tree.nodes@[j].has_child(w),
        tree.nodes@[i].child_entry(v).1 == tree.nodes@[j].child_entry(w).1,
    ensures
        i == j,
        v == w,
{
    assert(tree.child_inv(i, v));
    assert(tree.child_inv(j, w));
}

/// No prefix is stored in two places: two prefix slots that point to one
/// prefix are one slot.
pub proof fn lemma_one_slot<AF: AddressFamily, T>(
    tree: TreeBitMap<AF, T>,
    i: int,
    v: nat,
    l: nat,
    j: int,
    w: nat,
    m: nat,
)
    requires
        tree.wf(),
        0 <= i < tree.nodes@.len(),
        0 <= j < tree.nodes@.len(),
        valid_slot(tree.nodes@[i].stride_len(), v, l),
        valid_slot(tree.nodes@[j].stride_len(), w, m),
        tree.nodes@[i].has_prefix(v, l),
        tree.nodes@[j].has_prefix(w, m),
        tree.nodes@[i].prefix_entry(v, l).1 == tree.nodes@[j].prefix_entry(w, m).1,
    ensures
        i == j,
        v == w,
        l == m,
{
    assert(tree.slot_inv(i, v, l));
    assert(tree.slot_inv(j, w, m));
}

/// The prefix vector of a node is ordered by slot: of two taken slots the
/// one with the lower slot number, which is the shorter nibble or of two
/// equally long ones the lower, has its entry first.
pub proof fn lemma_prefix_vector_sorted<AF: AddressFamily, T>(
    tree: TreeBitMap<AF, T>,
    i: int,
    v: nat,
    l: nat,
    w: nat,
    m: nat,
)
    requires
        tree.wf(),
        0 <= i < tree.nodes@.len(),
        valid_slot(tree.nodes@[i].stride_len(), v, l),
        valid_slot(tree.nodes@[i].stride_len(), w, m),
        tree.nodes@[i].has_prefix(v, l),
        tree.nodes@[i].has_prefix(w, m),
        slot_id(v, l) < slot_id(w, m),
    ensures
        ({
            let node = tree.nodes@[i];
            let s = node.stride_len();
            rank(node.pfx_bits(), slot_pos(s, v, l), pfx_width(s)) < rank(
                node.pfx_bits(),
                slot_pos(s, w, m),
                pfx_width(s),
            )
        }),
{
    let node = tree.nodes@[i];
    let s = node.stride_len();
    lemma_slot_pos(s, v, l);
    lemma_slot_pos(s, w, m);
    lemma_rank_order(node.pfx_bits(), slot_pos(s, w, m), slot_pos(s, v, l), pfx_width(s));
}

/// The pointer vector of a node is sorted by the slot numbers that its
/// entries carry, without repeats.
pub proof fn lemma_pointer_vector_sorted<AF: AddressFamily, T>(tree: TreeBitMap<AF, T>, i: int, a: int, b: int)
    requires
        tree.wf(),
        0 <= i < tree.nodes@.len(),
        0 <= a < b < tree.nodes@[i].ptr_vec().len(),
    ensures
        tree.nodes@[i].ptr_vec()[a].0 < tree.nodes@[i].ptr_vec()[b].0,
{
    let node = tree.nodes@[i];
    let s = node.stride_len();
    let width = ptr_width(s);
    let bits = node.ptr_bits();
    assert(tree.node_inv(i));
    tree.lemma_level(tree.places@[i].level);
    vstd::arithmetic::power2::lemma2_to64();
    let p = lemma_rank_onto(bits, 0, width, a);
    let q = lemma_rank_onto(bits, 0, width, b);
    let v = (width - 1 - p) as nat;
    let w = (width - 1 - q) as nat;
    assert(child_pos(s, v) == p);
    assert(child_pos(s, w) == q);
    assert(tree.child_inv(i, v));
    assert(tree.child_inv(i, w));
    if p <= q {
        if p < q {
            lemma_rank_order(bits, p, q, width);
        }
    }
}

/// A query whose own prefix is stored gets it back as the longest match.
pub proof fn lemma_stored_query_matches_itself<AF: AddressFamily, T>(
    tree: TreeBitMap<AF, T>,
    q: Prefix<AF, NoMeta>,
    j: int,
    found: Option<&Prefix<AF, T>>,
)
    requires
        tree.wf(),
        0 <= j < tree.prefixes@.len(),
        tree.prefixes@[j].key() == q.key(),
        tree.is_longest_match(q.key(), found),
    ensures
        found.is_some(),
        *found.unwrap() == tree.prefixes@[j],
{
    lemma_exact_match(tree.keys(), q.key());
    let i = choose|i: int| 0 <= i < tree.prefixes@.len() && tree.prefixes@[i] == *found.unwrap();
    tree.lemma_keys_distinct(i, j);
}

/// Where the prefixes of the query of every length from 1 on are stored, a
/// lookup of all matches returns them in the order of their lengths, after
/// the prefix of no bits if that is stored too, and the last of them is as
/// long as the query.
pub proof fn lemma_nested_prefixes_all_match<AF: AddressFamily, T>(
    tree: TreeBitMap<AF, T>,
    q: Prefix<AF, NoMeta>,
    all: Seq<&Prefix<AF, T>>,
)
    requires
        tree.wf(),
        q.len >= 1,
        tree.is_all_matches(q.key(), all),
        forall|m: nat| 1 <= m <= q.len ==> tree.keys().contains(#[trigger] ancestor(q.key(), m)),
    ensures
        ({
            let first: nat = if tree.keys().contains(ancestor(q.key(), 0)) {
                0
            } else {
                1
            };
            &&& all.len() == q.len + 1 - first
            &&& forall|i: int| 0 <= i < all.len() ==> (#[trigger] all[i]).len == i + first
            &&& all.last().len == q.len
        }),
{
    let keys = tree.keys();
    lemma_nested_matches(keys, q.key(), (q.len + 1) as nat);
    let first: nat = if keys.contains(ancestor(q.key(), 0)) {
        0
    } else {
        1
    };
    assert forall|i: int| 0 <= i < all.len() implies (#[trigger] all[i]).len == i + first by {
        assert(all[i].key() == all_matches(keys, q.key())[i]);
    }
    assert(all.last() == all[all.len() - 1]);
}

} // verus!
