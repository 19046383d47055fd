//! The tree-bitmap store: an arena of nodes, an arena of prefixes, and the
//! stride schedule that says how many address bits each level consumes.

use vstd::prelude::*;
use vstd::arithmetic::power2::{pow2, lemma2_to64, lemma_pow2_adds, lemma_pow2_pos};
use crate::common::{AddressFamily, NoMeta, Prefix};
use crate::error::StoreError;
use crate::lpm::{
    PrefixKey, all_matches, key_of, longest_match, longest_match_upto, matches_below,
    nibble_bits, prefix_bits, lemma_join_split, lemma_key_ancestor,
    lemma_prefix_bits_ends, lemma_prefix_bits_split, lemma_prefix_bits_step,
};
use crate::treebitmap::node::{NewNodeOrIndex, SizedStrideNode};
use crate::treebitmap::stats::{SizedStride, StrideStats};
use crate::treebitmap::stride::{ptr_width, slot_id, valid_slot};

verus! {

/// Where a node sits in the tree: its level, the address bits that lead to
/// it, and the arena index of its parent (-1 for the root).
pub struct NodePlace {
    pub level: nat,
    pub path: nat,
    pub parent: int,
}

/// Number of address bits consumed above `level`.
pub open spec fn stride_start(strides: Seq<u8>, level: nat) -> nat
    decreases level,
{
    if level == 0 {
        0
    } else {
        stride_start(strides, (level - 1) as nat) + strides[level - 1] as nat
    }
}

/// Every stride is 3 to 8 bits wide, and together they consume `bits` bits.
pub open spec fn schedule_ok(strides: Seq<u8>, bits: nat) -> bool {
    &&& forall|i: int| 0 <= i < strides.len() ==> 3 <= #[trigger] strides[i] <= 8
    &&& stride_start(strides, strides.len()) == bits
}

/// The schedule that repeats `pattern` for as long as `acc` has not consumed
/// `bits` bits; none if the pattern is empty, holds a stride outside 3..=8 or
/// steps over `bits`.
pub open spec fn schedule_from(pattern: Seq<u8>, bits: nat, acc: Seq<u8>, sum: nat) -> Option<Seq<u8>>
    decreases bits - sum,
{
    if sum == bits {
        Some(acc)
    } else if sum > bits || pattern.len() == 0 {
        None
    } else {
        let s = pattern[(acc.len() % pattern.len()) as int];
        if 3 <= s <= 8 && sum + s <= bits {
            schedule_from(pattern, bits, acc.push(s), sum + s as nat)
        } else {
            None
        }
    }
}

/// The stride schedule that `pattern` gives for addresses of `bits` bits.
pub open spec fn schedule_of(pattern: Seq<u8>, bits: nat) -> Option<Seq<u8>> {
    schedule_from(pattern, bits, Seq::empty(), 0)
}

/// Number of levels, from `level` on, that a prefix of `len` bits passes
/// through: those that end before the prefix does.
pub open spec fn levels_passed(strides: Seq<u8>, len: nat, level: nat) -> nat
    decreases strides.len() - level,
{
    if level < strides.len() && stride_start(strides, level + 1) < len {
        1 + levels_passed(strides, len, level + 1)
    } else {
        0
    }
}

/// Levels further down start further into the address.
pub proof fn lemma_stride_start_monotone(strides: Seq<u8>, a: nat, b: nat)
    requires
        a <= b <= strides.len(),
        forall|i: int| 0 <= i < strides.len() ==> 3 <= #[trigger] strides[i] <= 8,
    ensures
        stride_start(strides, a) <= stride_start(strides, b),
        a < b ==> stride_start(strides, a) + strides[a as int] <= stride_start(strides, b),
    decreases b - a,
{
    if a < b {
        lemma_stride_start_monotone(strides, a, (b - 1) as nat);
    }
}

/// Number of the first `n` nodes that sit on `level`.
pub open spec fn nodes_on_level(places: Seq<NodePlace>, n: nat, level: nat) -> nat
    decreases n,
{
    if n == 0 {
        0
    } else {
        nodes_on_level(places, (n - 1) as nat, level) + if places[n - 1].level == level {
            1nat
        } else {
            0nat
        }
    }
}

/// Number of the first `n` prefixes whose home node sits on `level`.
pub open spec fn prefixes_on_level(places: Seq<NodePlace>, homes: Seq<int>, n: nat, level: nat) -> nat
    decreases n,
{
    if n == 0 {
        0
    } else {
        prefixes_on_level(places, homes, (n - 1) as nat, level) + if places[homes[n - 1]].level == level {
            1nat
        } else {
            0nat
        }
    }
}

/// Counting stops at `n`: what comes after does not count, and no more than `n` are counted.
pub proof fn lemma_nodes_on_level(places: Seq<NodePlace>, more: Seq<NodePlace>, n: nat, level: nat)
    requires
        n <= places.len(),
        places.len() <= more.len(),
        forall|i: int| 0 <= i < places.len() ==> places[i] == more[i],
    ensures
        nodes_on_level(more, n, level) == nodes_on_level(places, n, level),
        nodes_on_level(places, n, level) <= n,
    decreases n,
{
    if n > 0 {
        lemma_nodes_on_level(places, more, (n - 1) as nat, level);
    }
}

/// Counting stops at `n`, and new nodes do not move the homes of old prefixes.
pub proof fn lemma_prefixes_on_level(
    places: Seq<NodePlace>,
    more_places: Seq<NodePlace>,
    homes: Seq<int>,
    more_homes: Seq<int>,
    n: nat,
    level: nat,
)
    requires
        n <= homes.len(),
        homes.len() <= more_homes.len(),
        places.len() <= more_places.len(),
        forall|j: int| 0 <= j < homes.len() ==> #[trigger] homes[j] == more_homes[j] && 0 <= homes[j] < places.len(),
        forall|i: int| 0 <= i < places.len() ==> places[i] == more_places[i],
    ensures
        prefixes_on_level(more_places, more_homes, n, level) == prefixes_on_level(places, homes, n, level),
        prefixes_on_level(places, homes, n, level) <= n,
    decreases n,
{
    if n > 0 {
        lemma_prefixes_on_level(places, more_places, homes, more_homes, (n - 1) as nat, level);
    }
}

/// The multibit tree-bitmap.
///
/// `nodes[0]` is the root. `places` records for every node where it sits, and
/// `homes` for every prefix the node that holds it.
pub struct TreeBitMap<AF: AddressFamily, T> {
    pub strides: Vec<u8>,
    pub stats: Vec<StrideStats>,
    pub nodes: Vec<SizedStrideNode<AF>>,
    pub prefixes: Vec<Prefix<AF, T>>,
    pub places: Ghost<Seq<NodePlace>>,
    pub homes: Ghost<Seq<int>>,
}

impl<AF: AddressFamily, T> TreeBitMap<AF, T> {
    /// The keys of the stored prefixes.
    pub open spec fn keys(self) -> Set<PrefixKey> {
        Set::new(|k: PrefixKey| exists|j: int| 0 <= j < self.prefixes@.len() && #[trigger] self.prefixes@[j].key() == k)
    }

    /// `p` is one of the stored prefixes.
    pub open spec fn stores(self, p: Prefix<AF, T>) -> bool {
        exists|j: int| 0 <= j < self.prefixes@.len() && self.prefixes@[j] == p
    }

    /// `r` is what a lookup of `q` has to return: the stored prefix with the
    /// longest key that covers `q`.
    pub open spec fn is_longest_match(self, q: PrefixKey, r: Option<&Prefix<AF, T>>) -> bool {
        match r {
            Some(p) => self.stores(*p) && longest_match(self.keys(), q) == Some(p.key()),
            None => longest_match(self.keys(), q).is_none(),
        }
    }

    /// `r` is what a lookup of all matches of `q` has to return: the stored
    /// prefixes that cover `q`, from the shortest to the longest.
    pub open spec fn is_all_matches(self, q: PrefixKey, r: Seq<&Prefix<AF, T>>) -> bool {
        &&& r.len() == all_matches(self.keys(), q).len()
        &&& forall|t: int|
            0 <= t < r.len() ==> self.stores(*#[trigger] r[t]) && r[t].key() == all_matches(self.keys(), q)[t]
    }

    /// Nothing of `before` was removed or moved: every node is where it was and
    /// has the prefixes and children that it had, under the same arena indices.
    pub open spec fn grown_from(self, before: Self) -> bool {
        &&& before.nodes@.len() <= self.nodes@.len()
        &&& before.places@.len() <= self.places@.len()
        &&& forall|i: int|
            0 <= i < before.nodes@.len() ==> #[trigger] self.places@[i] == before.places@[i] && self.nodes@[i].stride_len()
                == before.nodes@[i].stride_len()
        &&& forall|i: int, n: nat, l: nat|
            0 <= i < before.nodes@.len() && valid_slot(before.nodes@[i].stride_len(), n, l)
                && #[trigger] before.nodes@[i].has_prefix(n, l) ==> self.nodes@[i].has_prefix(n, l)
                && self.nodes@[i].prefix_entry(n, l) == before.nodes@[i].prefix_entry(n, l)
        &&& forall|i: int, n: nat|
            0 <= i < before.nodes@.len() && n < ptr_width(before.nodes@[i].stride_len())
                && #[trigger] before.nodes@[i].has_child(n) ==> self.nodes@[i].has_child(n)
                && self.nodes@[i].child_entry(n) == before.nodes@[i].child_entry(n)
    }

    /// Growth upon growth is growth.
    pub proof fn lemma_grown_twice(self, middle: Self, before: Self)
        requires
            self.grown_from(middle),
            middle.grown_from(before),
            before.places@.len() == before.nodes@.len(),
            middle.places@.len() == middle.nodes@.len(),
        ensures
            self.grown_from(before),
    {
        assert forall|i: int, n: nat, l: nat|
            0 <= i < before.nodes@.len() && valid_slot(before.nodes@[i].stride_len(), n, l)
                && #[trigger] before.nodes@[i].has_prefix(n, l) implies self.nodes@[i].has_prefix(n, l)
            && self.nodes@[i].prefix_entry(n, l) == before.nodes@[i].prefix_entry(n, l) by {
            assert(middle.places@[i] == before.places@[i]);
            assert(middle.nodes@[i].has_prefix(n, l));
        }
        assert forall|i: int, n: nat|
            0 <= i < before.nodes@.len() && n < ptr_width(before.nodes@[i].stride_len())
                && #[trigger] before.nodes@[i].has_child(n) implies self.nodes@[i].has_child(n)
            && self.nodes@[i].child_entry(n) == before.nodes@[i].child_entry(n) by {
            assert(middle.places@[i] == before.places@[i]);
            assert(middle.nodes@[i].has_child(n));
        }
        assert forall|i: int| 0 <= i < before.nodes@.len() implies #[trigger] self.places@[i] == before.places@[i]
            && self.nodes@[i].stride_len() == before.nodes@[i].stride_len() by {
            assert(middle.places@[i] == before.places@[i]);
            assert(self.places@[i] == middle.places@[i]);
        }
    }

    /// `self` is what inserting `pfx` makes of `before`, and `r` what the insert reports.
    pub open spec fn inserted(self, before: Self, pfx: Prefix<AF, T>, r: Result<(), StoreError>) -> bool {
        &&& self.strides@ == before.strides@
        &&& self.grown_from(before)
        &&& self.nodes@.len() <= before.nodes@.len() + before.strides@.len()
        &&& self.nodes@.len() <= before.nodes@.len() + levels_passed(before.strides@, pfx.len as nat, 0)
        &&& match r {
            Ok(()) => pfx.valid() && !before.keys().contains(pfx.key()) && self.prefixes@ == before.prefixes@.push(
                pfx,
            ),
            Err(e) => self.prefixes@ == before.prefixes@ && self.nodes@ == before.nodes@ && self.stats@
                == before.stats@ && e == if pfx.valid() {
                StoreError::Duplicate
            } else {
                StoreError::InvalidPrefix
            } && (pfx.valid() ==> before.keys().contains(pfx.key())),
        }
    }

    /// Number of address bits consumed above `level`.
    pub open spec fn start(self, level: nat) -> nat {
        stride_start(self.strides@, level)
    }

    /// The node `i` sits at a level of its own stride width, below a parent that
    /// points to it.
    pub open spec fn node_inv(self, i: int) -> bool {
        let place = self.places@[i];
        let node = self.nodes@[i];
        &&& place.level < self.strides@.len()
        &&& node.stride_len() == self.strides@[place.level as int]
        &&& node.coherent()
        &&& place.path < pow2(self.start(place.level))
        &&& (place.level == 0 <==> i == 0)
        &&& i > 0 ==> {
            let up = self.places@[place.parent];
            let s = self.strides@[up.level as int] as nat;
            &&& 0 <= place.parent < self.nodes@.len()
            &&& up.level + 1 == place.level
            &&& up.path == place.path / pow2(s)
            &&& self.nodes@[place.parent].has_child(place.path % pow2(s))
            &&& self.nodes@[place.parent].child_entry(place.path % pow2(s)).1 == i
        }
    }

    /// If node `i` has a child for the nibble `v`, that child is a node one level
    /// down, reached by the path of `i` followed by `v`.
    pub open spec fn child_inv(self, i: int, v: nat) -> bool {
        let place = self.places@[i];
        let node = self.nodes@[i];
        let entry = node.child_entry(v);
        node.has_child(v) ==> {
            &&& entry.1 < self.nodes@.len()
            &&& entry.0 == slot_id(v, node.stride_len())
            &&& self.places@[entry.1 as int] == NodePlace {
                level: place.level + 1,
                path: place.path * pow2(node.stride_len()) + v,
                parent: i,
            }
        }
    }

    /// If the slot `(v, l)` of node `i` is taken, its entry is a stored prefix
    /// whose key is the path of `i` followed by `v`.
    pub open spec fn slot_inv(self, i: int, v: nat, l: nat) -> bool {
        let place = self.places@[i];
        let node = self.nodes@[i];
        let entry = node.prefix_entry(v, l);
        node.has_prefix(v, l) ==> {
            &&& entry.1 < self.prefixes@.len()
            &&& self.homes@[entry.1 as int] == i
            &&& self.prefixes@[entry.1 as int].key() == PrefixKey {
                len: self.start(place.level) + l,
                bits: place.path * pow2(l) + v,
            }
            &&& entry.0.value() == place.path * pow2(l) + v
            &&& (l == 0 ==> i == 0)
        }
    }

    /// The prefix `j` is held by the slot of its home node that its key names.
    pub open spec fn home_inv(self, j: int) -> bool {
        let key = self.prefixes@[j].key();
        let i = self.homes@[j];
        let place = self.places@[i];
        let node = self.nodes@[i];
        let l = (key.len - self.start(place.level)) as nat;
        &&& self.prefixes@[j].valid()
        &&& 0 <= i < self.nodes@.len()
        &&& self.start(place.level) <= key.len
        &&& valid_slot(node.stride_len(), key.bits % pow2(l), l)
        &&& (l == 0 ==> i == 0)
        &&& key.bits / pow2(l) == place.path
        &&& node.has_prefix(key.bits % pow2(l), l)
        &&& node.prefix_entry(key.bits % pow2(l), l).1 == j
    }

    /// The arenas and the stride schedule fit together: the tree holds exactly
    /// the prefixes of the prefix arena, each where a search for it arrives.
    pub open spec fn wf_core(self) -> bool {
        &&& schedule_ok(self.strides@, AF::spec_bits())
        &&& 1 <= self.nodes@.len() <= u32::MAX + 1
        &&& self.prefixes@.len() <= u32::MAX + 1
        &&& self.places@.len() == self.nodes@.len()
        &&& self.homes@.len() == self.prefixes@.len()
        &&& self.places@[0] == NodePlace { level: 0, path: 0, parent: -1 }
        &&& forall|i: int| 0 <= i < self.nodes@.len() ==> #[trigger] self.node_inv(i)
        &&& forall|i: int, v: nat|
            0 <= i < self.nodes@.len() && v < ptr_width(self.nodes@[i].stride_len()) ==> #[trigger] self.child_inv(
                i,
                v,
            )
        &&& forall|i: int, v: nat, l: nat|
            0 <= i < self.nodes@.len() && valid_slot(self.nodes@[i].stride_len(), v, l) ==> #[trigger] self.slot_inv(
                i,
                v,
                l,
            )
        &&& forall|j: int| 0 <= j < self.prefixes@.len() ==> #[trigger] self.home_inv(j)
        &&& forall|a: int, b: int|
            0 <= a < self.nodes@.len() && 0 <= b < self.nodes@.len() && (#[trigger] self.places@[a]).level == (
            #[trigger] self.places@[b]).level && self.places@[a].path == self.places@[b].path ==> a == b
    }

    /// The statistics have one block per stride width and one counter per
    /// level: the block of the stride width of a level counts the nodes on that
    /// level and the prefixes stored in them, and the other blocks count none there.
    pub open spec fn stats_ok(self) -> bool {
        &&& self.stats@.len() == 6
        &&& forall|k: int| 0 <= k < 6 ==> (#[trigger] self.stats@[k]).wf(self.strides@.len())
        &&& forall|k: int, l: int|
            0 <= k < 6 && 0 <= l < self.strides@.len() ==> (#[trigger] self.stats@[k].created_nodes@[l]).count
                == if self.strides@[l] == k + 3 {
                nodes_on_level(self.places@, self.places@.len(), l as nat)
            } else {
                0
            }
        &&& forall|k: int, l: int|
            0 <= k < 6 && 0 <= l < self.strides@.len() ==> (#[trigger] self.stats@[k].prefixes_num@[l]).count
                == if self.strides@[l] == k + 3 {
                prefixes_on_level(self.places@, self.homes@, self.homes@.len(), l as nat)
            } else {
                0
            }
    }

    /// The invariant of the store.
    pub open spec fn wf(self) -> bool {
        self.wf_core() && self.stats_ok()
    }

    /// The arenas can take one more prefix and the nodes that lead to it.
    pub open spec fn has_room(self) -> bool {
        &&& self.nodes@.len() + self.strides@.len() <= u32::MAX
        &&& self.prefixes@.len() < u32::MAX
    }
}

/// The start of a level depends on the strides above it alone.
pub proof fn lemma_stride_start_agree(a: Seq<u8>, b: Seq<u8>, level: nat)
    requires
        level <= a.len(),
        level <= b.len(),
        forall|i: int| 0 <= i < level ==> a[i] == b[i],
    ensures
        stride_start(a, level) == stride_start(b, level),
    decreases level,
{
    if level > 0 {
        lemma_stride_start_agree(a, b, (level - 1) as nat);
    }
}

/// Strides of at least 3 bits consume at least 3 bits per level.
pub proof fn lemma_stride_start_grows(strides: Seq<u8>, level: nat)
    requires
        level <= strides.len(),
        forall|i: int| 0 <= i < strides.len() ==> 3 <= #[trigger] strides[i] <= 8,
    ensures
        3 * level <= stride_start(strides, level) <= 8 * level,
    decreases level,
{
    if level > 0 {
        lemma_stride_start_grows(strides, (level - 1) as nat);
    }
}

/// `strides` repeats `pattern`.
pub open spec fn repeats(strides: Seq<u8>, pattern: Seq<u8>) -> bool {
    forall|i: int| 0 <= i < strides.len() ==> #[trigger] strides[i] == pattern[i % pattern.len() as int]
}

/// A schedule that grows out of a valid beginning that repeats the pattern is
/// valid and repeats the pattern.
pub proof fn lemma_schedule_from(pattern: Seq<u8>, bits: nat, acc: Seq<u8>, sum: nat)
    requires
        sum == stride_start(acc, acc.len()),
        forall|i: int| 0 <= i < acc.len() ==> 3 <= #[trigger] acc[i] <= 8,
        repeats(acc, pattern),
        schedule_from(pattern, bits, acc, sum).is_some(),
    ensures
        schedule_ok(schedule_from(pattern, bits, acc, sum).unwrap(), bits),
        repeats(schedule_from(pattern, bits, acc, sum).unwrap(), pattern),
    decreases bits - sum,
{
    if sum != bits {
        let s = pattern[(acc.len() % pattern.len()) as int];
        let next = acc.push(s);
        lemma_stride_start_agree(acc, next, acc.len());
        lemma_schedule_from(pattern, bits, next, sum + s as nat);
    }
}

/// The stride schedule of a pattern consumes exactly the bits of the address,
/// in strides of 3 to 8 bits that repeat the pattern.
pub proof fn lemma_schedule_of(pattern: Seq<u8>, bits: nat)
    requires
        schedule_of(pattern, bits).is_some(),
    ensures
        schedule_ok(schedule_of(pattern, bits).unwrap(), bits),
        repeats(schedule_of(pattern, bits).unwrap(), pattern),
{
    lemma_schedule_from(pattern, bits, Seq::empty(), 0);
}

/// The stride schedule that repeats `pattern` until `bits` address bits are
/// consumed; none if the pattern is empty, holds a stride outside 3..=8 or
/// steps over `bits`.
pub fn expand_strides(pattern: &Vec<u8>, bits: u8) -> (r: Option<Vec<u8>>)
    ensures
        match r {
            Some(strides) => schedule_of(pattern@, bits as nat) == Some(strides@) && schedule_ok(strides@, bits as nat)
                && repeats(strides@, pattern@),
            None => schedule_of(pattern@, bits as nat).is_none(),
        },
{
    proof {
        if schedule_of(pattern@, bits as nat).is_some() {
            lemma_schedule_of(pattern@, bits as nat);
        }
    }
    let mut strides: Vec<u8> = Vec::new();
    let mut sum: u8 = 0;
    if pattern.len() == 0 {
        if bits == 0 {
            return Some(strides);
        }
        return None;
    }
    while sum < bits
        invariant
            pattern@.len() > 0,
            sum <= bits,
            schedule_from(pattern@, bits as nat, strides@, sum as nat) == schedule_of(pattern@, bits as nat),
        decreases bits - sum,
    {
        let s = pattern[strides.len() % pattern.len()];
        if s < 3 || s > 8 || s > bits - sum {
            return None;
        }
        strides.push(s);
        sum += s;
    }
    Some(strides)
}

/// The usual stride pattern: 7, 5, 5, 5, 3, 4 and 3 bits, which consume 32 bits.
pub fn default_strides() -> (r: Vec<u8>)
    ensures
        r@ == seq![7u8, 5u8, 5u8, 5u8, 3u8, 4u8, 3u8],
{
    let mut strides: Vec<u8> = Vec::new();
    strides.push(7);
    strides.push(5);
    strides.push(5);
    strides.push(5);
    strides.push(3);
    strides.push(4);
    strides.push(3);
    proof {
        assert(strides@ =~= seq![7u8, 5u8, 5u8, 5u8, 3u8, 4u8, 3u8]);
    }
    strides
}

impl<AF: AddressFamily, T> TreeBitMap<AF, T> {
    /// An empty store with the stride schedule `strides`. The schedule is
    /// refused if it holds a stride outside 3..=8 or does not add up to the
    /// width of the address.
    pub fn new(strides: Vec<u8>) -> (r: Result<Self, StoreError>)
        ensures
            match r {
                Ok(tree) => tree.wf() && tree.has_room() && schedule_ok(strides@, AF::spec_bits()) && tree.strides@
                    == strides@ && tree.prefixes@.len() == 0 && tree.nodes@.len() == 1 && tree.nodes@[0].is_empty(),
                Err(e) => e == StoreError::InvalidStrideSchedule && !schedule_ok(strides@, AF::spec_bits()),
            },
    {
        let bits = AF::bits();
        let mut sum: u8 = 0;
        let mut level: usize = 0;
        proof {
            AF::lemma_width();
        }
        while level < strides.len()
            invariant
                bits == AF::spec_bits(),
                level <= strides@.len(),
                sum <= bits <= 128,
                sum == stride_start(strides@, level as nat),
                forall|i: int| 0 <= i < level ==> 3 <= #[trigger] strides@[i] <= 8,
            decreases strides@.len() - level,
        {
            let s = strides[level];
            if s < 3 || s > 8 {
                return Err(StoreError::InvalidStrideSchedule);
            }
            if s > bits - sum {
                proof {
                    if schedule_ok(strides@, bits as nat) {
                        lemma_stride_start_monotone(strides@, (level + 1) as nat, strides@.len());
                    }
                }
                return Err(StoreError::InvalidStrideSchedule);
            }
            sum += s;
            level += 1;
        }
        if sum != bits {
            return Err(StoreError::InvalidStrideSchedule);
        }
        proof {
            lemma_stride_start_grows(strides@, strides@.len());
        }
        let levels = strides.len() as u8;
        let mut stats: Vec<StrideStats> = Vec::new();
        stats.push(StrideStats::new(SizedStride::Stride3, levels));
        stats.push(StrideStats::new(SizedStride::Stride4, levels));
        stats.push(StrideStats::new(SizedStride::Stride5, levels));
        stats.push(StrideStats::new(SizedStride::Stride6, levels));
        stats.push(StrideStats::new(SizedStride::Stride7, levels));
        stats.push(StrideStats::new(SizedStride::Stride8, levels));
        let root = SizedStrideNode::empty(strides[0]);
        stats[(strides[0] - 3) as usize].inc(0);
        let mut nodes: Vec<SizedStrideNode<AF>> = Vec::new();
        nodes.push(root);
        let places: Ghost<Seq<NodePlace>> = Ghost(
            Seq::empty().push(NodePlace { level: 0, path: 0, parent: -1 }),
        );
        let homes: Ghost<Seq<int>> = Ghost(Seq::empty());
        let tree = TreeBitMap { strides, stats, nodes, prefixes: Vec::new(), places, homes };
        proof {
            lemma2_to64();
            assert(tree.node_inv(0));
            assert(tree.wf_core());
            assert(nodes_on_level(tree.places@, 0, 0) == 0);
            assert forall|l: nat| nodes_on_level(tree.places@, 1, l) == if l == 0 { 1nat } else { 0nat } by {
                assert(nodes_on_level(tree.places@, 0, l) == 0);
            }
            assert(tree.stats_ok());
        }
        Ok(tree)
    }
}

impl<AF: AddressFamily, T> TreeBitMap<AF, T> {
    /// Node `i` lies on the way of a search for the address `net`.
    pub open spec fn on_path(self, i: int, net: nat) -> bool {
        &&& 0 <= i < self.nodes@.len()
        &&& self.places@[i].path == prefix_bits(net, AF::spec_bits(), self.start(self.places@[i].level))
    }

    /// The key of the prefix with arena index `found`, if there is one.
    pub open spec fn key_at(self, found: Option<u32>) -> Option<PrefixKey> {
        match found {
            Some(j) => Some(self.prefixes@[j as int].key()),
            None => None,
        }
    }

    /// Levels of a well-formed tree start within the address, one stride apart.
    pub proof fn lemma_level(self, level: nat)
        requires
            self.wf_core(),
            level < self.strides@.len(),
        ensures
            3 <= self.strides@[level as int] <= 8,
            self.start(level + 1) == self.start(level) + self.strides@[level as int],
            self.start(level + 1) <= AF::spec_bits(),
            AF::spec_bits() <= 128,
            3 * level <= self.start(level),
    {
        AF::lemma_width();
        lemma_stride_start_monotone(self.strides@, level + 1, self.strides@.len());
        lemma_stride_start_grows(self.strides@, level);
    }

    /// Two levels whose stride ranges hold the same length are one level.
    pub proof fn lemma_level_unique(self, a: nat, la: nat, b: nat, lb: nat)
        requires
            self.wf_core(),
            a < self.strides@.len(),
            b < self.strides@.len(),
            1 <= la <= self.strides@[a as int],
            1 <= lb <= self.strides@[b as int],
            self.start(a) + la == self.start(b) + lb,
        ensures
            a == b,
            la == lb,
    {
        if a < b {
            lemma_stride_start_monotone(self.strides@, a, b);
        } else if b < a {
            lemma_stride_start_monotone(self.strides@, b, a);
        }
    }

    /// A taken slot of a node on the way of `net` holds the stored prefix that
    /// has the key of `net` at the slot's length, and only a taken slot stands
    /// for a stored key.
    pub proof fn lemma_slot_is_key(self, i: int, net: nat, l: nat)
        requires
            self.wf_core(),
            self.on_path(i, net),
            net < pow2(AF::spec_bits()),
            l <= self.nodes@[i].stride_len(),
            self.start(self.places@[i].level) + l <= AF::spec_bits(),
            l == 0 ==> i == 0,
        ensures
            ({
                let start = self.start(self.places@[i].level);
                let nibble = nibble_bits(net, AF::spec_bits(), start, l);
                let entry = self.nodes@[i].prefix_entry(nibble, l);
                &&& valid_slot(self.nodes@[i].stride_len(), nibble, l)
                &&& self.nodes@[i].has_prefix(nibble, l) <==> self.keys().contains(
                    key_of(net, AF::spec_bits(), start + l),
                )
                &&& self.nodes@[i].has_prefix(nibble, l) ==> entry.1 < self.prefixes@.len()
                    && self.prefixes@[entry.1 as int].key() == key_of(net, AF::spec_bits(), start + l)
            }),
    {
        let bits = AF::spec_bits();
        let place = self.places@[i];
        let start = self.start(place.level);
        let nibble = nibble_bits(net, bits, start, l);
        let node = self.nodes@[i];
        let k = key_of(net, bits, start + l);
        assert(self.node_inv(i));
        self.lemma_level(place.level);
        lemma_prefix_bits_split(net, bits, start, l);
        assert(self.slot_inv(i, nibble, l));
        if node.has_prefix(nibble, l) {
            let entry = node.prefix_entry(nibble, l);
            assert(self.prefixes@[entry.1 as int].key() == k);
            assert(self.keys().contains(k));
        }
        if self.keys().contains(k) {
            let j = choose|j: int| 0 <= j < self.prefixes@.len() && #[trigger] self.prefixes@[j].key() == k;
            assert(self.home_inv(j));
            let h = self.homes@[j];
            let hp = self.places@[h];
            let lh = (k.len - self.start(hp.level)) as nat;
            assert(self.node_inv(h));
            self.lemma_level(hp.level);
            if l == 0 {
                if hp.level > 0 {
                    self.lemma_level((hp.level - 1) as nat);
                }
                assert(hp.level == 0);
            } else {
                assert(lh != 0) by {
                    if lh == 0 {
                        assert(h == 0);
                    }
                }
                self.lemma_level_unique(place.level, l, hp.level, lh);
            }
            assert(lh == l);
            lemma_prefix_bits_step(net, bits, start, start + l);
            assert(hp.path == place.path);
            assert(h == i);
        }
    }

    /// Above every node, at every level up to its own, there is a node on the
    /// same path.
    pub proof fn lemma_ancestor_node(self, h: int, m: nat) -> (a: int)
        requires
            self.wf_core(),
            0 <= h < self.nodes@.len(),
            m <= self.places@[h].level,
        ensures
            0 <= a < self.nodes@.len(),
            self.places@[a].level == m,
            self.start(m) <= self.start(self.places@[h].level),
            self.places@[a].path == self.places@[h].path / pow2(
                (self.start(self.places@[h].level) - self.start(m)) as nat,
            ),
        decreases self.places@[h].level - m,
    {
        let place = self.places@[h];
        assert(self.node_inv(h));
        if place.level == m {
            lemma2_to64();
            assert(place.path / 1 == place.path);
            h
        } else {
            let p = place.parent;
            let up = self.places@[p];
            let s = self.strides@[up.level as int] as nat;
            let a = self.lemma_ancestor_node(p, m);
            self.lemma_level(up.level);
            let d = (self.start(up.level) - self.start(m)) as nat;
            lemma_pow2_pos(s);
            lemma_pow2_pos(d);
            lemma_pow2_adds(s, d);
            vstd::arithmetic::div_mod::lemma_div_denominator(place.path as int, pow2(s) as int, pow2(d) as int);
            a
        }
    }

    /// Where the node on the way of `net` has no child for the next nibble of
    /// `net`, no key of `net` that reaches below this node is stored.
    pub proof fn lemma_no_child_no_deeper(self, i: int, net: nat, l: nat)
        requires
            self.wf_core(),
            self.on_path(i, net),
            net < pow2(AF::spec_bits()),
            !self.nodes@[i].has_child(
                nibble_bits(
                    net,
                    AF::spec_bits(),
                    self.start(self.places@[i].level),
                    self.nodes@[i].stride_len(),
                ),
            ),
            self.start(self.places@[i].level) + self.nodes@[i].stride_len() < l <= AF::spec_bits(),
        ensures
            !self.keys().contains(key_of(net, AF::spec_bits(), l)),
    {
        let bits = AF::spec_bits();
        let place = self.places@[i];
        let k = key_of(net, bits, l);
        assert(self.node_inv(i));
        self.lemma_level(place.level);
        let s = self.strides@[place.level as int] as nat;
        if self.keys().contains(k) {
            let j = choose|j: int| 0 <= j < self.prefixes@.len() && #[trigger] self.prefixes@[j].key() == k;
            assert(self.home_inv(j));
            let h = self.homes@[j];
            let hp = self.places@[h];
            let lh = (l - self.start(hp.level)) as nat;
            assert(self.node_inv(h));
            self.lemma_level(hp.level);
            if hp.level <= place.level {
                lemma_stride_start_monotone(self.strides@, hp.level + 1, place.level + 1);
            }
            assert(hp.level >= place.level + 1);
            lemma_prefix_bits_step(net, bits, self.start(hp.level), l);
            let a = self.lemma_ancestor_node(h, place.level + 1);
            let ap = self.places@[a];
            lemma_prefix_bits_step(net, bits, self.start(place.level + 1), self.start(hp.level));
            assert(ap.path == prefix_bits(net, bits, self.start(place.level + 1)));
            assert(self.node_inv(a));
            let p = ap.parent;
            lemma_prefix_bits_split(net, bits, self.start(place.level), s);
            lemma_prefix_bits_step(net, bits, self.start(place.level), self.start(place.level + 1));
            assert(self.places@[p].path == place.path);
            assert(p == i);
        }
    }

    /// What the longest match of a node's own slots adds to the longest match
    /// above the node.
    pub proof fn lemma_last_match(self, i: int, net: nat, query_len: nat, upto: nat)
        requires
            self.wf_core(),
            self.on_path(i, net),
            net < pow2(AF::spec_bits()),
            upto <= self.nodes@[i].stride_len(),
            self.start(self.places@[i].level) + upto <= query_len <= AF::spec_bits(),
        ensures
            ({
                let start = self.start(self.places@[i].level);
                let q = key_of(net, AF::spec_bits(), query_len);
                match self.nodes@[i].last_match_upto(net, start, upto) {
                    Some(entry) => entry.1 < self.prefixes@.len() && longest_match_upto(self.keys(), q, start + upto)
                        == Some(self.prefixes@[entry.1 as int].key()),
                    None => longest_match_upto(self.keys(), q, start + upto) == longest_match_upto(
                        self.keys(),
                        q,
                        start,
                    ),
                }
            }),
        decreases upto,
    {
        let bits = AF::spec_bits();
        let start = self.start(self.places@[i].level);
        let q = key_of(net, bits, query_len);
        let node = self.nodes@[i];
        if upto > 0 {
            self.lemma_slot_is_key(i, net, upto);
            lemma_key_ancestor(net, bits, start + upto, query_len);
            self.lemma_last_match(i, net, query_len, (upto - 1) as nat);
            let nibble = nibble_bits(net, bits, start, upto);
            assert(node.last_match_upto(net, start, upto) == if node.has_prefix(nibble, upto) {
                Some(node.prefix_entry(nibble, upto))
            } else {
                node.last_match_upto(net, start, (upto - 1) as nat)
            }) by {
                self.lemma_unfold_last_match(i, net, start, upto);
            }
        }
    }

    /// One step of `last_match_upto`, whatever the stride width of the node.
    pub proof fn lemma_unfold_last_match(self, i: int, net: nat, start: nat, upto: nat)
        requires
            upto > 0,
        ensures
            self.nodes@[i].last_match_upto(net, start, upto) == if self.nodes@[i].has_prefix(
                nibble_bits(net, AF::spec_bits(), start, upto),
                upto,
            ) {
                Some(self.nodes@[i].prefix_entry(nibble_bits(net, AF::spec_bits(), start, upto), upto))
            } else {
                self.nodes@[i].last_match_upto(net, start, (upto - 1) as nat)
            },
            self.nodes@[i].matches_upto(net, start, upto) == if self.nodes@[i].has_prefix(
                nibble_bits(net, AF::spec_bits(), start, upto),
                upto,
            ) {
                self.nodes@[i].matches_upto(net, start, (upto - 1) as nat).push(
                    self.nodes@[i].prefix_entry(nibble_bits(net, AF::spec_bits(), start, upto), upto),
                )
            } else {
                self.nodes@[i].matches_upto(net, start, (upto - 1) as nat)
            },
            self.nodes@[i].last_match_upto(net, start, 0).is_none(),
            self.nodes@[i].matches_upto(net, start, 0).len() == 0,
    {
        match self.nodes@[i] {
            SizedStrideNode::Stride3(node) => {
                assert(node.matches_upto(net, start, 0).len() == 0);
            },
            SizedStrideNode::Stride4(node) => {
                assert(node.matches_upto(net, start, 0).len() == 0);
            },
            SizedStrideNode::Stride5(node) => {
                assert(node.matches_upto(net, start, 0).len() == 0);
            },
            SizedStrideNode::Stride6(node) => {
                assert(node.matches_upto(net, start, 0).len() == 0);
            },
            SizedStrideNode::Stride7(node) => {
                assert(node.matches_upto(net, start, 0).len() == 0);
            },
            SizedStrideNode::Stride8(node) => {
                assert(node.matches_upto(net, start, 0).len() == 0);
            },
        }
    }

    /// Where the search stops at a node for want of a child, the longest match
    /// so far is the longest match.
    pub proof fn lemma_stop(self, i: int, net: nat, query_len: nat, l: nat)
        requires
            self.wf_core(),
            self.on_path(i, net),
            net < pow2(AF::spec_bits()),
            !self.nodes@[i].has_child(
                nibble_bits(
                    net,
                    AF::spec_bits(),
                    self.start(self.places@[i].level),
                    self.nodes@[i].stride_len(),
                ),
            ),
            self.start(self.places@[i].level) + self.nodes@[i].stride_len() <= l <= query_len <= AF::spec_bits(),
        ensures
            ({
                let end = self.start(self.places@[i].level) + self.nodes@[i].stride_len();
                let q = key_of(net, AF::spec_bits(), query_len);
                &&& longest_match_upto(self.keys(), q, l) == longest_match_upto(self.keys(), q, end)
                &&& matches_below(self.keys(), q, l + 1) == matches_below(self.keys(), q, end + 1)
            }),
        decreases l,
    {
        let end = self.start(self.places@[i].level) + self.nodes@[i].stride_len();
        if l > end {
            self.lemma_no_child_no_deeper(i, net, l);
            lemma_key_ancestor(net, AF::spec_bits(), l, query_len);
            self.lemma_stop(i, net, query_len, (l - 1) as nat);
        }
    }
}

impl<AF: AddressFamily, T> TreeBitMap<AF, T> {
    /// The node with arena index `index`.
    pub fn retrieve_node(&self, index: u32) -> (r: Option<&SizedStrideNode<AF>>)
        ensures
            r == if index < self.nodes@.len() {
                Some(&self.nodes@[index as int])
            } else {
                None
            },
    {
        if (index as usize) < self.nodes.len() {
            Some(&self.nodes[index as usize])
        } else {
            None
        }
    }

    /// The prefix with arena index `index`.
    pub fn retrieve_prefix(&self, index: u32) -> (r: Option<&Prefix<AF, T>>)
        ensures
            r == if index < self.prefixes@.len() {
                Some(&self.prefixes@[index as int])
            } else {
                None
            },
    {
        if (index as usize) < self.prefixes.len() {
            Some(&self.prefixes[index as usize])
        } else {
            None
        }
    }

    /// The node with arena index `index`, to be changed in place. Whoever changes
    /// it answers for the invariant of the store.
    pub fn retrieve_node_mut(&mut self, index: u32) -> (r: Option<&mut SizedStrideNode<AF>>)
        ensures
            r.is_some() == (index < old(self).nodes@.len()),
            r.is_none() ==> *final(self) == *old(self),
            r.is_some() ==> {
                &&& *r.unwrap() == old(self).nodes@[index as int]
                &&& final(self).nodes@ == old(self).nodes@.update(index as int, *final(r.unwrap()))
                &&& final(self).strides == old(self).strides
                &&& final(self).stats == old(self).stats
                &&& final(self).prefixes == old(self).prefixes
                &&& final(self).places == old(self).places
                &&& final(self).homes == old(self).homes
            },
    {
        if (index as usize) < self.nodes.len() {
            Some(&mut self.nodes[index as usize])
        } else {
            None
        }
    }

    /// The prefix with arena index `index`, to be changed in place. Whoever
    /// changes its network or length answers for the invariant of the store.
    pub fn retrieve_prefix_mut(&mut self, index: u32) -> (r: Option<&mut Prefix<AF, T>>)
        ensures
            r.is_some() == (index < old(self).prefixes@.len()),
            r.is_none() ==> *final(self) == *old(self),
            r.is_some() ==> {
                &&& *r.unwrap() == old(self).prefixes@[index as int]
                &&& final(self).prefixes@ == old(self).prefixes@.update(index as int, *final(r.unwrap()))
                &&& final(self).strides == old(self).strides
                &&& final(self).stats == old(self).stats
                &&& final(self).nodes == old(self).nodes
                &&& final(self).places == old(self).places
                &&& final(self).homes == old(self).homes
            },
    {
        if (index as usize) < self.prefixes.len() {
            Some(&mut self.prefixes[index as usize])
        } else {
            None
        }
    }

    /// The arena index of the longest stored prefix that covers the query.
    pub fn longest_match_index(&self, search_pfx: &Prefix<AF, NoMeta>) -> (r: Option<u32>)
        requires
            self.wf(),
        ensures
            match r {
                Some(j) => search_pfx.valid() && j < self.prefixes@.len() && longest_match(
                    self.keys(),
                    search_pfx.key(),
                ) == Some(self.prefixes@[j as int].key()),
                None => !search_pfx.valid() || longest_match(self.keys(), search_pfx.key()).is_none(),
            },
    {
        if search_pfx.len > AF::bits() {
            return None;
        }
        let ghost net = search_pfx.net.value();
        let ghost bits = AF::spec_bits();
        let ghost q = search_pfx.key();
        proof {
            search_pfx.net.lemma_family();
            lemma2_to64();
            assert(self.node_inv(0));
            lemma_prefix_bits_ends(net, bits);
            self.lemma_slot_is_key(0, net, 0);
            lemma_key_ancestor(net, bits, 0, search_pfx.len as nat);
        }
        let mut found: Option<u32> = match self.nodes[0].prefix_at(0, 0) {
            Some(entry) => Some(entry.1),
            None => None,
        };
        let mut node_idx: usize = 0;
        let mut level: usize = 0;
        let mut stride_end: u8 = 0;
        let mut done = false;
        let ghost mut upto: nat = 0;
        while !done && level < self.strides.len()
            invariant
                self.wf_core(),
                search_pfx.len <= bits,
                bits == AF::spec_bits(),
                net == search_pfx.net.value(),
                net < pow2(bits),
                q == key_of(net, bits, search_pfx.len as nat),
                found.is_some() ==> found.unwrap() < self.prefixes@.len(),
                self.key_at(found) == longest_match_upto(self.keys(), q, upto),
                done ==> upto == search_pfx.len,
                !done ==> {
                    &&& level < self.strides@.len()
                    &&& self.on_path(node_idx as int, net)
                    &&& self.places@[node_idx as int].level == level
                    &&& stride_end == self.start(level as nat)
                    &&& stride_end <= search_pfx.len
                    &&& upto == stride_end
                },
            decreases self.strides@.len() - level + (if done { 0int } else { 1int }),
        {
            proof {
                self.lemma_level(level as nat);
                assert(self.node_inv(node_idx as int));
            }
            let stride = self.strides[level];
            let start_bit = stride_end;
            stride_end = stride_end + stride;
            let nibble_len = if search_pfx.len < stride_end {
                search_pfx.len - start_bit
            } else {
                stride
            };
            let nibble = AF::get_nibble(search_pfx.net, start_bit, nibble_len);
            let (next, hit) = self.nodes[node_idx].search_stride_at_lmp_only(
                search_pfx,
                nibble,
                nibble_len,
                start_bit,
            );
            proof {
                self.lemma_last_match(node_idx as int, net, search_pfx.len as nat, nibble_len as nat);
                lemma_prefix_bits_split(net, bits, start_bit as nat, nibble_len as nat);
            }
            match hit {
                Some(entry) => {
                    found = Some(entry.1);
                },
                None => {},
            }
            match next {
                Some(child) => {
                    proof {
                        assert(self.child_inv(node_idx as int, nibble as nat));
                        upto = stride_end as nat;
                    }
                    node_idx = child as usize;
                    level += 1;
                    proof {
                        assert(self.node_inv(node_idx as int));
                    }
                },
                None => {
                    proof {
                        if nibble_len == stride {
                            self.lemma_stop(node_idx as int, net, search_pfx.len as nat, search_pfx.len as nat);
                        }
                        upto = search_pfx.len as nat;
                    }
                    done = true;
                },
            }
        }
        found
    }

    /// Looks up the most specific stored prefix that covers the query; nothing
    /// if none does or the query is longer than the address.
    pub fn match_longest_prefix_only(&self, search_pfx: &Prefix<AF, NoMeta>) -> (r: Option<&Prefix<AF, T>>)
        requires
            self.wf(),
        ensures
            search_pfx.valid() ==> self.is_longest_match(search_pfx.key(), r),
            !search_pfx.valid() ==> r.is_none(),
    {
        match self.longest_match_index(search_pfx) {
            Some(index) => Some(&self.prefixes[index as usize]),
            None => None,
        }
    }
}

impl<AF: AddressFamily, T> TreeBitMap<AF, T> {
    /// `found` lists, in order, the entries of the stored prefixes whose keys are `keys`.
    pub open spec fn lists(self, found: Seq<(AF, u32)>, keys: Seq<PrefixKey>) -> bool {
        &&& found.len() == keys.len()
        &&& forall|t: int|
            0 <= t < found.len() ==> (#[trigger] found[t]).1 < self.prefixes@.len() && self.prefixes@[found[t].1 as int].key()
                == keys[t]
    }

    /// What the matches of a node's own slots add to the matches above the node.
    pub proof fn lemma_node_matches(self, i: int, net: nat, query_len: nat, upto: nat)
        requires
            self.wf_core(),
            self.on_path(i, net),
            net < pow2(AF::spec_bits()),
            upto <= self.nodes@[i].stride_len(),
            self.start(self.places@[i].level) + upto <= query_len <= AF::spec_bits(),
        ensures
            ({
                let start = self.start(self.places@[i].level);
                let q = key_of(net, AF::spec_bits(), query_len);
                let above = matches_below(self.keys(), q, start + 1);
                let all = matches_below(self.keys(), q, start + upto + 1);
                let here = self.nodes@[i].matches_upto(net, start, upto);
                &&& all.len() == above.len() + here.len()
                &&& all.subrange(0, above.len() as int) == above
                &&& self.lists(here, all.subrange(above.len() as int, all.len() as int))
            }),
        decreases upto,
    {
        let bits = AF::spec_bits();
        let start = self.start(self.places@[i].level);
        let q = key_of(net, bits, query_len);
        let above = matches_below(self.keys(), q, start + 1);
        let all = matches_below(self.keys(), q, start + upto + 1);
        let here = self.nodes@[i].matches_upto(net, start, upto);
        self.lemma_unfold_last_match(i, net, start, if upto > 0 { upto } else { 1 });
        if upto > 0 {
            self.lemma_slot_is_key(i, net, upto);
            lemma_key_ancestor(net, bits, start + upto, query_len);
            self.lemma_node_matches(i, net, query_len, (upto - 1) as nat);
            let prev = matches_below(self.keys(), q, start + upto);
            let here_prev = self.nodes@[i].matches_upto(net, start, (upto - 1) as nat);
            assert(all.subrange(0, above.len() as int) =~= above);
            let tail = all.subrange(above.len() as int, all.len() as int);
            let tail_prev = prev.subrange(above.len() as int, prev.len() as int);
            assert forall|t: int| 0 <= t < here.len() implies (#[trigger] here[t]).1 < self.prefixes@.len()
                && self.prefixes@[here[t].1 as int].key() == tail[t] by {
                if t < here_prev.len() {
                    assert(here[t] == here_prev[t]);
                    assert(tail[t] == tail_prev[t]);
                }
            }
        } else {
            assert(all.subrange(0, above.len() as int) =~= above);
        }
    }

    /// The entries of all stored prefixes that cover the query, shortest first.
    pub fn all_match_entries(&self, search_pfx: &Prefix<AF, NoMeta>) -> (r: Vec<(AF, u32)>)
        requires
            self.wf(),
        ensures
            search_pfx.valid() ==> self.lists(r@, all_matches(self.keys(), search_pfx.key())),
            !search_pfx.valid() ==> r@.len() == 0,
    {
        let mut found: Vec<(AF, u32)> = Vec::new();
        if search_pfx.len > AF::bits() {
            return found;
        }
        let ghost net = search_pfx.net.value();
        let ghost bits = AF::spec_bits();
        let ghost q = search_pfx.key();
        proof {
            search_pfx.net.lemma_family();
            lemma2_to64();
            assert(self.node_inv(0));
            lemma_prefix_bits_ends(net, bits);
            self.lemma_slot_is_key(0, net, 0);
            lemma_key_ancestor(net, bits, 0, search_pfx.len as nat);
            assert(matches_below(self.keys(), q, 0).len() == 0);
        }
        match self.nodes[0].prefix_at(0, 0) {
            Some(entry) => {
                found.push(entry);
            },
            None => {},
        }
        let mut node_idx: usize = 0;
        let mut level: usize = 0;
        let mut stride_end: u8 = 0;
        let mut done = false;
        let ghost mut upto: nat = 0;
        while !done && level < self.strides.len()
            invariant
                self.wf_core(),
                search_pfx.len <= bits,
                bits == AF::spec_bits(),
                net == search_pfx.net.value(),
                net < pow2(bits),
                q == key_of(net, bits, search_pfx.len as nat),
                self.lists(found@, matches_below(self.keys(), q, upto + 1)),
                done ==> upto == search_pfx.len,
                !done ==> {
                    &&& level < self.strides@.len()
                    &&& self.on_path(node_idx as int, net)
                    &&& self.places@[node_idx as int].level == level
                    &&& stride_end == self.start(level as nat)
                    &&& stride_end <= search_pfx.len
                    &&& upto == stride_end
                },
            decreases self.strides@.len() - level + (if done { 0int } else { 1int }),
        {
            proof {
                self.lemma_level(level as nat);
                assert(self.node_inv(node_idx as int));
            }
            let stride = self.strides[level];
            let start_bit = stride_end;
            stride_end = stride_end + stride;
            let nibble_len = if search_pfx.len < stride_end {
                search_pfx.len - start_bit
            } else {
                stride
            };
            let nibble = AF::get_nibble(search_pfx.net, start_bit, nibble_len);
            let ghost before = found@;
            let next = self.nodes[node_idx].search_stride_at(search_pfx, nibble, nibble_len, start_bit, &mut found);
            proof {
                self.lemma_node_matches(node_idx as int, net, search_pfx.len as nat, nibble_len as nat);
                lemma_prefix_bits_split(net, bits, start_bit as nat, nibble_len as nat);
                let above = matches_below(self.keys(), q, start_bit as nat + 1);
                let all = matches_below(self.keys(), q, (start_bit + nibble_len) as nat + 1);
                let here = self.nodes@[node_idx as int].matches_upto(net, start_bit as nat, nibble_len as nat);
                let tail = all.subrange(above.len() as int, all.len() as int);
                assert forall|t: int| 0 <= t < found@.len() implies (#[trigger] found@[t]).1 < self.prefixes@.len()
                    && self.prefixes@[found@[t].1 as int].key() == all[t] by {
                    if t < before.len() {
                        assert(found@[t] == before[t]);
                        assert(all[t] == all.subrange(0, above.len() as int)[t]);
                    } else {
                        assert(found@[t] == here[t - before.len()]);
                        assert(all[t] == tail[t - before.len()]);
                    }
                }
            }
            match next {
                Some(child) => {
                    proof {
                        assert(self.child_inv(node_idx as int, nibble as nat));
                        upto = stride_end as nat;
                    }
                    node_idx = child as usize;
                    level += 1;
                    proof {
                        assert(self.node_inv(node_idx as int));
                    }
                },
                None => {
                    proof {
                        if nibble_len == stride {
                            self.lemma_stop(node_idx as int, net, search_pfx.len as nat, search_pfx.len as nat);
                        }
                        upto = search_pfx.len as nat;
                    }
                    done = true;
                },
            }
        }
        found
    }

    /// Looks up every stored prefix that covers the query, from the least to
    /// the most specific, each once; none if the query is longer than the address.
    pub fn match_longest_prefix(&self, search_pfx: &Prefix<AF, NoMeta>) -> (r: Vec<&Prefix<AF, T>>)
        requires
            self.wf(),
        ensures
            search_pfx.valid() ==> self.is_all_matches(search_pfx.key(), r@),
            !search_pfx.valid() ==> r@.len() == 0,
    {
        let found = self.all_match_entries(search_pfx);
        let mut result: Vec<&Prefix<AF, T>> = Vec::new();
        let mut t: usize = 0;
        while t < found.len()
            invariant
                t <= found@.len(),
                result@.len() == t,
                forall|u: int| 0 <= u < found@.len() ==> (#[trigger] found@[u]).1 < self.prefixes@.len(),
                forall|u: int| 0 <= u < t ==> *#[trigger] result@[u] == self.prefixes@[found@[u].1 as int],
            decreases found@.len() - t,
        {
            let index = found[t].1;
            result.push(&self.prefixes[index as usize]);
            t += 1;
        }
        proof {
            if search_pfx.valid() {
                assert forall|u: int| 0 <= u < result@.len() implies self.stores(*#[trigger] result@[u]) by {
                    assert(found@[u].1 < self.prefixes@.len());
                }
            }
        }
        result
    }
}

impl<AF: AddressFamily, T> TreeBitMap<AF, T> {
    /// `self` is `before` with the prefix `pfx` appended to the prefix arena and
    /// entered in the slot `(nibble, l)` of node `i`.
    pub open spec fn stored_prefix(self, before: Self, i: int, nibble: nat, l: nat, pfx: Prefix<AF, T>, net: AF) -> bool {
        &&& self.strides@ == before.strides@
        &&& self.places@ == before.places@
        &&& self.prefixes@ == before.prefixes@.push(pfx)
        &&& self.homes@ == before.homes@.push(i)
        &&& self.nodes@.len() == before.nodes@.len()
        &&& forall|k: int| 0 <= k < self.nodes@.len() && k != i ==> #[trigger] self.nodes@[k] == before.nodes@[k]
        &&& self.nodes@[i].adds_prefix(before.nodes@[i], nibble, l, (net, before.prefixes@.len() as u32))
    }

    /// `self` is `before` with an empty node appended to the node arena and
    /// linked under the full nibble `v` of node `i`.
    pub open spec fn stored_node(self, before: Self, i: int, v: nat) -> bool {
        let place = before.places@[i];
        let s = before.nodes@[i].stride_len();
        let index = before.nodes@.len() as int;
        &&& self.strides@ == before.strides@
        &&& self.prefixes@ == before.prefixes@
        &&& self.homes@ == before.homes@
        &&& self.places@ == before.places@.push(
            NodePlace { level: place.level + 1, path: place.path * pow2(s) + v, parent: i },
        )
        &&& self.nodes@.len() == index + 1
        &&& forall|k: int| 0 <= k < index && k != i ==> #[trigger] self.nodes@[k] == before.nodes@[k]
        &&& self.nodes@[i].adds_child(before.nodes@[i], v, (slot_id(v, s) as u16, index as u32))
        &&& self.nodes@[index].is_empty()
        &&& self.nodes@[index].coherent()
        &&& self.nodes@[index].stride_len() == self.strides@[place.level as int + 1]
    }

    /// Storing a prefix in the free slot where a search for it arrives keeps the
    /// tree well-formed.
    pub proof fn lemma_stored_prefix(self, before: Self, i: int, nibble: nat, l: nat, pfx: Prefix<AF, T>, net: AF)
        requires
            before.wf_core(),
            before.prefixes@.len() < u32::MAX,
            before.on_path(i, pfx.net.value()),
            pfx.valid(),
            l <= before.nodes@[i].stride_len(),
            before.start(before.places@[i].level) + l == pfx.len,
            l == 0 ==> i == 0,
            nibble == nibble_bits(pfx.net.value(), AF::spec_bits(), before.start(before.places@[i].level), l),
            !before.nodes@[i].has_prefix(nibble, l),
            net.value() == prefix_bits(pfx.net.value(), AF::spec_bits(), pfx.len as nat),
            self.stored_prefix(before, i, nibble, l, pfx, net),
        ensures
            self.wf_core(),
    {
        let bits = AF::spec_bits();
        let x = pfx.net.value();
        let place = before.places@[i];
        let start = before.start(place.level);
        let index = before.prefixes@.len() as int;
        pfx.net.lemma_family();
        assert(before.node_inv(i));
        before.lemma_level(place.level);
        lemma_prefix_bits_split(x, bits, start, l);
        lemma_prefix_bits_step(x, bits, start, start + l);
        let was = before.nodes@[i];
        let now = self.nodes@[i];
        assert forall|k: int| 0 <= k < self.nodes@.len() implies #[trigger] self.node_inv(k) by {
            assert(before.node_inv(k));
            if k != i {
                assert(self.nodes@[k] == before.nodes@[k]);
            }
            if k > 0 {
                let p = before.places@[k].parent;
                let w = before.places@[k].path % pow2(before.strides@[before.places@[p].level as int] as nat);
                lemma_pow2_pos(before.strides@[before.places@[p].level as int] as nat);
                if p != i {
                    assert(self.nodes@[p] == before.nodes@[p]);
                } else {
                    assert(now.has_child(w) <==> was.has_child(w));
                    assert(now.child_entry(w) == was.child_entry(w));
                }
            }
        }
        assert forall|k: int, v: nat|
            0 <= k < self.nodes@.len() && v < ptr_width(self.nodes@[k].stride_len()) implies #[trigger] self.child_inv(
            k,
            v,
        ) by {
            assert(before.child_inv(k, v));
            if k != i {
                assert(self.nodes@[k] == before.nodes@[k]);
            } else {
                assert(now.has_child(v) <==> was.has_child(v));
                assert(now.child_entry(v) == was.child_entry(v));
            }
        }
        assert forall|k: int, v: nat, m: nat|
            0 <= k < self.nodes@.len() && valid_slot(self.nodes@[k].stride_len(), v, m) implies #[trigger] self.slot_inv(
            k,
            v,
            m,
        ) by {
            assert(before.slot_inv(k, v, m));
            if k != i {
                assert(self.nodes@[k] == before.nodes@[k]);
            } else if v == nibble && m == l {
                assert(self.prefixes@[index] == pfx);
            } else {
                assert(now.has_prefix(v, m) <==> was.has_prefix(v, m));
                if was.has_prefix(v, m) {
                    assert(now.prefix_entry(v, m) == was.prefix_entry(v, m));
                }
            }
        }
        assert forall|j: int| 0 <= j < self.prefixes@.len() implies #[trigger] self.home_inv(j) by {
            if j < index {
                assert(before.home_inv(j));
                let h = before.homes@[j];
                let key = before.prefixes@[j].key();
                let m = (key.len - before.start(before.places@[h].level)) as nat;
                let v = key.bits % pow2(m);
                lemma_pow2_pos(m);
                if h != i {
                    assert(self.nodes@[h] == before.nodes@[h]);
                } else {
                    assert(now.has_prefix(v, m) <==> was.has_prefix(v, m));
                    assert(now.prefix_entry(v, m) == was.prefix_entry(v, m));
                }
            } else {
                assert(self.prefixes@[j] == pfx);
                assert(pfx.key().bits % pow2(l) == nibble);
                assert(pfx.key().bits / pow2(l) == place.path);
            }
        }
    }

    /// Linking an empty node under the missing child of a node keeps the tree
    /// well-formed.
    pub proof fn lemma_stored_node(self, before: Self, i: int, v: nat)
        requires
            before.wf_core(),
            before.nodes@.len() <= u32::MAX,
            0 <= i < before.nodes@.len(),
            before.places@[i].level + 1 < before.strides@.len(),
            v < ptr_width(before.nodes@[i].stride_len()),
            !before.nodes@[i].has_child(v),
            self.stored_node(before, i, v),
        ensures
            self.wf_core(),
    {
        let place = before.places@[i];
        let s = before.nodes@[i].stride_len();
        let index = before.nodes@.len() as int;
        let path = place.path * pow2(s) + v;
        assert(before.node_inv(i));
        before.lemma_level(place.level);
        lemma_join_split(place.path, v, s);
        lemma_pow2_adds(before.start(place.level), s);
        assert(path < pow2(before.start(place.level)) * pow2(s)) by (nonlinear_arith)
            requires
                path == place.path * pow2(s) + v,
                v < pow2(s),
                place.path < pow2(before.start(place.level)),
        ;
        lemma2_to64();
        assert forall|k: int| 0 <= k < self.nodes@.len() implies #[trigger] self.node_inv(k) by {
            if k < index {
                assert(before.node_inv(k));
                if k > 0 {
                    let p = before.places@[k].parent;
                    assert(before.node_inv(p));
                    let w = before.places@[k].path % pow2(before.strides@[before.places@[p].level as int] as nat);
                    if p == i {
                        lemma_pow2_pos(s);
                        assert(w < ptr_width(s));
                        assert(w != v);
                    }
                }
            }
        }
        assert forall|k: int, w: nat|
            0 <= k < self.nodes@.len() && w < ptr_width(self.nodes@[k].stride_len()) implies #[trigger] self.child_inv(
            k,
            w,
        ) by {
            if k < index {
                assert(before.child_inv(k, w));
            }
        }
        assert forall|k: int, w: nat, m: nat|
            0 <= k < self.nodes@.len() && valid_slot(self.nodes@[k].stride_len(), w, m) implies #[trigger] self.slot_inv(
            k,
            w,
            m,
        ) by {
            if k < index {
                assert(before.slot_inv(k, w, m));
            }
        }
        assert forall|j: int| 0 <= j < self.prefixes@.len() implies #[trigger] self.home_inv(j) by {
            assert(before.home_inv(j));
        }
        assert forall|a: int, b: int|
            0 <= a < self.nodes@.len() && 0 <= b < self.nodes@.len() && (#[trigger] self.places@[a]).level == (
            #[trigger] self.places@[b]).level && self.places@[a].path == self.places@[b].path implies a == b by {
            if a < index && b == index {
                self.lemma_new_place(before, i, v, a);
            } else if b < index && a == index {
                self.lemma_new_place(before, i, v, b);
            }
        }
    }

    /// No node of `before` sits where the new node is put.
    pub proof fn lemma_new_place(self, before: Self, i: int, v: nat, a: int)
        requires
            before.wf_core(),
            0 <= i < before.nodes@.len(),
            0 <= a < before.nodes@.len(),
            before.places@[i].level + 1 < before.strides@.len(),
            v < ptr_width(before.nodes@[i].stride_len()),
            !before.nodes@[i].has_child(v),
        ensures
            before.places@[a].level != before.places@[i].level + 1 || before.places@[a].path
                != before.places@[i].path * pow2(before.nodes@[i].stride_len()) + v,
    {
        let place = before.places@[i];
        let s = before.nodes@[i].stride_len();
        assert(before.node_inv(i));
        assert(before.node_inv(a));
        if before.places@[a].level == place.level + 1 && before.places@[a].path == place.path * pow2(s) + v {
            let p = before.places@[a].parent;
            assert(before.node_inv(p));
            lemma_join_split(place.path, v, s);
            assert(p == i);
        }
    }
}

impl<AF: AddressFamily, T> TreeBitMap<AF, T> {
    /// Whether the arenas are too full to take one more prefix with the nodes
    /// that lead to it.
    pub fn is_full(&self) -> (r: bool)
        ensures
            r == !self.has_room(),
    {
        let nodes = self.nodes.len();
        let levels = self.strides.len();
        let prefixes = self.prefixes.len();
        prefixes >= u32::MAX as usize || nodes > u32::MAX as usize || levels > u32::MAX as usize - nodes
    }

    /// Appends a node to the node arena and returns its index. The node is not
    /// yet linked to a parent.
    pub fn store_node(&mut self, next_node: SizedStrideNode<AF>) -> (r: u32)
        requires
            old(self).nodes@.len() <= u32::MAX,
        ensures
            r == old(self).nodes@.len(),
            final(self).nodes@ == old(self).nodes@.push(next_node),
            final(self).strides == old(self).strides,
            final(self).stats == old(self).stats,
            final(self).prefixes == old(self).prefixes,
            final(self).places == old(self).places,
            final(self).homes == old(self).homes,
    {
        let id = self.nodes.len() as u32;
        self.nodes.push(next_node);
        id
    }

    /// Appends a prefix to the prefix arena and returns its index. The prefix is
    /// not yet entered in a node.
    pub fn store_prefix(&mut self, next_node: Prefix<AF, T>) -> (r: u32)
        requires
            old(self).prefixes@.len() <= u32::MAX,
        ensures
            r == old(self).prefixes@.len(),
            final(self).prefixes@ == old(self).prefixes@.push(next_node),
            final(self).strides == old(self).strides,
            final(self).stats == old(self).stats,
            final(self).nodes == old(self).nodes,
            final(self).places == old(self).places,
            final(self).homes == old(self).homes,
    {
        let id = self.prefixes.len() as u32;
        self.prefixes.push(next_node);
        id
    }

    /// Stores `pfx`. A prefix longer than the address is refused, and so is one
    /// whose network and length are stored already; neither changes the store.
    /// The arenas must have room for the prefix and the nodes that lead to it,
    /// which `is_full` tells.
    pub fn insert(&mut self, pfx: Prefix<AF, T>) -> (r: Result<(), StoreError>)
        requires
            old(self).wf(),
            old(self).has_room(),
        ensures
            final(self).wf(),
            final(self).inserted(*old(self), pfx, r),
    {
        if pfx.len > AF::bits() {
            return Err(StoreError::InvalidPrefix);
        }
        let ghost net = pfx.net.value();
        let ghost bits = AF::spec_bits();
        let ghost key = pfx.key();
        proof {
            pfx.net.lemma_family();
            lemma2_to64();
            assert(self.node_inv(0));
            lemma_prefix_bits_ends(net, bits);
        }
        let mut cur_i: usize = 0;
        let mut level: usize = 0;
        let mut stride_end: u8 = 0;
        let ghost mut changed = false;
        while level < self.strides.len()
            invariant
                self.wf(),
                self.strides@ == old(self).strides@,
                self.prefixes@ == old(self).prefixes@,
                old(self).has_room(),
                pfx.len <= bits,
                bits == AF::spec_bits(),
                net == pfx.net.value(),
                net < pow2(bits),
                key == pfx.key(),
                level < self.strides@.len(),
                self.on_path(cur_i as int, net),
                self.places@[cur_i as int].level == level,
                stride_end == self.start(level as nat),
                stride_end < pfx.len || level == 0,
                self.nodes@.len() <= old(self).nodes@.len() + level,
                levels_passed(self.strides@, pfx.len as nat, 0) == level + levels_passed(
                    self.strides@,
                    pfx.len as nat,
                    level as nat,
                ),
                self.grown_from(*old(self)),
                old(self).places@.len() == old(self).nodes@.len(),
                changed ==> !self.keys().contains(key),
                !changed ==> self.nodes@ == old(self).nodes@ && self.stats@ == old(self).stats@,
            decreases self.strides@.len() - level,
        {
            let ghost before = *self;
            proof {
                self.lemma_level(level as nat);
                assert(self.node_inv(cur_i as int));
            }
            let stride = self.strides[level];
            let start_bit = stride_end;
            stride_end = stride_end + stride;
            let nibble_len = if pfx.len < stride_end {
                pfx.len - start_bit
            } else {
                stride
            };
            let nibble = AF::get_nibble(pfx.net, start_bit, nibble_len);
            let is_last_stride = pfx.len <= stride_end;
            proof {
                lemma_prefix_bits_split(net, bits, start_bit as nat, nibble_len as nat);
                if !is_last_stride {
                    lemma_stride_start_monotone(self.strides@, (level + 1) as nat, self.strides@.len());
                    assert(level + 1 < self.strides@.len());
                    self.lemma_level((level + 1) as nat);
                }
                self.lemma_slot_is_key(cur_i as int, net, nibble_len as nat);
            }
            let next_stride = if level + 1 < self.strides.len() {
                Some(&self.strides[level + 1])
            } else {
                None
            };
            let step = self.nodes[cur_i].eval_node_or_prefix_at(nibble, nibble_len, next_stride, is_last_stride);
            match step {
                NewNodeOrIndex::NewPrefix => {
                    let net_key = AF::truncate(pfx.net, pfx.len);
                    let index = self.store_prefix(pfx);
                    self.nodes[cur_i].insert_prefix(nibble, nibble_len, net_key, index);
                    proof {
                        assert(self.stats@[stride as int - 3].wf(self.strides@.len()));
                        before.lemma_stats_bounded(stride as int - 3, level as int);
                    }
                    self.stats[(stride - 3) as usize].inc_prefix_count(level as u8);
                    proof {
                        self.homes@ = self.homes@.push(cur_i as int);
                        self.lemma_stored_prefix(
                            before,
                            cur_i as int,
                            nibble as nat,
                            nibble_len as nat,
                            pfx,
                            net_key,
                        );
                        self.lemma_stats_after_prefix(before, stride as int - 3, level as int);
                        assert(self.grown_from(before)) by {
                            assert forall|i: int| 0 <= i < before.nodes@.len() && i != cur_i implies self.nodes@[i]
                                == before.nodes@[i] by {}
                        }
                        self.lemma_grown_twice(before, *old(self));
                    }
                    return Ok(());
                },
                NewNodeOrIndex::ExistingPrefix => {
                    return Err(StoreError::Duplicate);
                },
                NewNodeOrIndex::NewNode(node, bit_id) => {
                    proof {
                        self.lemma_no_child_no_deeper(cur_i as int, net, pfx.len as nat);
                    }
                    let next = self.strides[level + 1];
                    let index = self.store_node(node);
                    self.nodes[cur_i].insert_child(nibble, bit_id, index);
                    proof {
                        assert(self.stats@[next as int - 3].wf(self.strides@.len()));
                        before.lemma_stats_bounded(next as int - 3, level as int + 1);
                    }
                    self.stats[(next - 3) as usize].inc((level + 1) as u8);
                    proof {
                        self.places@ = self.places@.push(
                            NodePlace {
                                level: (level + 1) as nat,
                                path: before.places@[cur_i as int].path * pow2(stride as nat) + nibble as nat,
                                parent: cur_i as int,
                            },
                        );
                        self.lemma_stored_node(before, cur_i as int, nibble as nat);
                        self.lemma_stats_after_node(before, next as int - 3, level as int + 1);
                        assert(self.keys() =~= before.keys());
                        assert(self.grown_from(before)) by {
                            assert forall|i: int| 0 <= i < before.nodes@.len() && i != cur_i implies self.nodes@[i]
                                == before.nodes@[i] by {}
                        }
                        self.lemma_grown_twice(before, *old(self));
                        changed = true;
                        assert(self.node_inv(index as int));
                    }
                    cur_i = index as usize;
                    level += 1;
                },
                NewNodeOrIndex::ExistingNode(index) => {
                    proof {
                        assert(self.child_inv(cur_i as int, nibble as nat));
                        assert(self.node_inv(index as int));
                    }
                    cur_i = index as usize;
                    level += 1;
                },
            }
        }
        Err(StoreError::Duplicate)
    }

    /// Counting the new prefix at the level of its home keeps the statistics right.
    pub proof fn lemma_stats_after_prefix(self, before: Self, k: int, level: int)
        requires
            before.wf(),
            0 <= level < before.strides@.len(),
            k == before.strides@[level] - 3,
            self.strides@ == before.strides@,
            self.places@ == before.places@,
            self.homes@.len() == before.homes@.len() + 1,
            forall|j: int| 0 <= j < before.homes@.len() ==> self.homes@[j] == before.homes@[j],
            0 <= self.homes@[before.homes@.len() as int] < before.places@.len(),
            before.places@[self.homes@[before.homes@.len() as int]].level == level,
            self.stats@.len() == 6,
            forall|m: int| 0 <= m < 6 && m != k ==> self.stats@[m] == before.stats@[m],
            self.stats@[k].wf(self.strides@.len()),
            self.stats@[k].created_nodes == before.stats@[k].created_nodes,
            self.stats@[k].prefixes_num@.len() == before.stats@[k].prefixes_num@.len(),
            forall|l: int|
                0 <= l < before.strides@.len() ==> (#[trigger] self.stats@[k].prefixes_num@[l]).count
                    == before.stats@[k].prefixes_num@[l].count + if l == level {
                    1int
                } else {
                    0int
                },
        ensures
            self.stats_ok(),
    {
        assert forall|m: int, l: int| 0 <= m < 6 && 0 <= l < self.strides@.len() implies (
        #[trigger] self.stats@[m].prefixes_num@[l]).count == if self.strides@[l] == m + 3 {
            prefixes_on_level(self.places@, self.homes@, self.homes@.len(), l as nat)
        } else {
            0
        } by {
            assert(before.stats@[m].prefixes_num@[l].count == if before.strides@[l] == m + 3 {
                prefixes_on_level(before.places@, before.homes@, before.homes@.len(), l as nat)
            } else {
                0
            });
            assert forall|j: int| 0 <= j < before.homes@.len() implies 0 <= #[trigger] before.homes@[j] < before.places@.len() by {
                assert(before.home_inv(j));
            }
            lemma_prefixes_on_level(
                before.places@,
                self.places@,
                before.homes@,
                self.homes@,
                before.homes@.len(),
                l as nat,
            );
        }
        assert forall|m: int, l: int| 0 <= m < 6 && 0 <= l < self.strides@.len() implies (
        #[trigger] self.stats@[m].created_nodes@[l]).count == if self.strides@[l] == m + 3 {
            nodes_on_level(self.places@, self.places@.len(), l as nat)
        } else {
            0
        } by {
            assert(before.stats@[m].created_nodes@[l].count == if before.strides@[l] == m + 3 {
                nodes_on_level(before.places@, before.places@.len(), l as nat)
            } else {
                0
            });
        }
        assert forall|m: int| 0 <= m < 6 implies (#[trigger] self.stats@[m]).wf(self.strides@.len()) by {
            assert(before.stats@[m].wf(before.strides@.len()));
        }
    }

    /// Counting the new node at its level keeps the statistics right.
    pub proof fn lemma_stats_after_node(self, before: Self, k: int, level: int)
        requires
            before.wf(),
            0 <= level < before.strides@.len(),
            k == before.strides@[level] - 3,
            self.strides@ == before.strides@,
            self.homes@ == before.homes@,
            self.places@.len() == before.places@.len() + 1,
            forall|i: int| 0 <= i < before.places@.len() ==> self.places@[i] == before.places@[i],
            self.places@[before.places@.len() as int].level == level,
            self.stats@.len() == 6,
            forall|m: int| 0 <= m < 6 && m != k ==> self.stats@[m] == before.stats@[m],
            self.stats@[k].wf(self.strides@.len()),
            self.stats@[k].prefixes_num == before.stats@[k].prefixes_num,
            self.stats@[k].created_nodes@.len() == before.stats@[k].created_nodes@.len(),
            forall|l: int|
                0 <= l < before.strides@.len() ==> (#[trigger] self.stats@[k].created_nodes@[l]).count
                    == before.stats@[k].created_nodes@[l].count + if l == level {
                    1int
                } else {
                    0int
                },
        ensures
            self.stats_ok(),
    {
        assert forall|j: int| 0 <= j < before.homes@.len() implies 0 <= #[trigger] before.homes@[j] < before.places@.len() by {
            assert(before.home_inv(j));
        }
        assert forall|m: int, l: int| 0 <= m < 6 && 0 <= l < self.strides@.len() implies (
        #[trigger] self.stats@[m].prefixes_num@[l]).count == if self.strides@[l] == m + 3 {
            prefixes_on_level(self.places@, self.homes@, self.homes@.len(), l as nat)
        } else {
            0
        } by {
            assert(before.stats@[m].prefixes_num@[l].count == if before.strides@[l] == m + 3 {
                prefixes_on_level(before.places@, before.homes@, before.homes@.len(), l as nat)
            } else {
                0
            });
            lemma_prefixes_on_level(
                before.places@,
                self.places@,
                before.homes@,
                self.homes@,
                before.homes@.len(),
                l as nat,
            );
        }
        assert forall|m: int, l: int| 0 <= m < 6 && 0 <= l < self.strides@.len() implies (
        #[trigger] self.stats@[m].created_nodes@[l]).count == if self.strides@[l] == m + 3 {
            nodes_on_level(self.places@, self.places@.len(), l as nat)
        } else {
            0
        } by {
            assert(before.stats@[m].created_nodes@[l].count == if before.strides@[l] == m + 3 {
                nodes_on_level(before.places@, before.places@.len(), l as nat)
            } else {
                0
            });
            lemma_nodes_on_level(before.places@, self.places@, before.places@.len(), l as nat);
        }
        assert forall|m: int| 0 <= m < 6 implies (#[trigger] self.stats@[m]).wf(self.strides@.len()) by {
            assert(before.stats@[m].wf(before.strides@.len()));
        }
    }

    /// No counter exceeds the size of the arena that it counts in.
    pub proof fn lemma_stats_bounded(self, k: int, l: int)
        requires
            self.wf(),
            0 <= k < 6,
            0 <= l < self.strides@.len(),
        ensures
            self.stats@[k].created_nodes@[l].count <= self.nodes@.len(),
            self.stats@[k].prefixes_num@[l].count <= self.prefixes@.len(),
    {
        assert forall|j: int| 0 <= j < self.homes@.len() implies 0 <= #[trigger] self.homes@[j] < self.places@.len() by {
            assert(self.home_inv(j));
        }
        lemma_nodes_on_level(self.places@, self.places@, self.places@.len(), l as nat);
        lemma_prefixes_on_level(self.places@, self.places@, self.homes@, self.homes@, self.homes@.len(), l as nat);
        assert(self.stats@[k].created_nodes@[l].count <= self.nodes@.len());
        assert(self.stats@[k].prefixes_num@[l].count <= self.prefixes@.len());
    }
}

impl<AF: AddressFamily, T> TreeBitMap<AF, T> {
    /// No two stored prefixes have the same key.
    pub proof fn lemma_keys_distinct(self, i: int, j: int)
        requires
            self.wf_core(),
            0 <= i < self.prefixes@.len(),
            0 <= j < self.prefixes@.len(),
            self.prefixes@[i].key() == self.prefixes@[j].key(),
        ensures
            i == j,
    {
        let key = self.prefixes@[i].key();
        assert(self.home_inv(i));
        assert(self.home_inv(j));
        let a = self.homes@[i];
        let b = self.homes@[j];
        let la = (key.len - self.start(self.places@[a].level)) as nat;
        let lb = (key.len - self.start(self.places@[b].level)) as nat;
        assert(self.node_inv(a));
        assert(self.node_inv(b));
        self.lemma_level(self.places@[a].level);
        self.lemma_level(self.places@[b].level);
        if la == 0 || lb == 0 {
            if la == 0 && lb != 0 {
                assert(a == 0);
            }
            if lb == 0 && la != 0 {
                assert(b == 0);
            }
        } else {
            self.lemma_level_unique(self.places@[a].level, la, self.places@[b].level, lb);
        }
        assert(a == b);
    }
}

} // verus!
