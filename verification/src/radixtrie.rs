//! The path-compressed trie: a binary trie whose nodes skip the bits on
//! which nothing branches.

use vstd::prelude::*;
use vstd::arithmetic::power2::{pow2, lemma2_to64};
use crate::common::{AddressFamily, NoMeta, Prefix, key_bit, key_ok};
use crate::error::StoreError;
use crate::lpm::{
    PrefixKey, ancestor, covers, key_of, longest_match, longest_match_upto, prefix_bits,
    lemma_ancestor_self, lemma_ancestor_twice, lemma_covers_transitive, lemma_key_ancestor,
    lemma_no_longer_match, lemma_prefix_bits_bound, lemma_prefix_bits_ends, lemma_prefix_bits_split,
    lemma_prefix_bits_step,
};

verus! {

/// A node of the path-compressed trie. It stands for the prefix of
/// `bit_pos` bits whose bits spell `bit_id`.
pub struct RadixTrieNode<'a, AF: AddressFamily, T> {
    pub prefix: Option<&'a Prefix<AF, T>>,
    pub bit_pos: u8,
    pub bit_id: AF,
    pub left: Option<Box<RadixTrieNode<'a, AF, T>>>,
    pub right: Option<Box<RadixTrieNode<'a, AF, T>>>,
}

/// A prefix that covers `k` has the bits of `k` as far as it goes.
pub proof fn lemma_covered_bit(p: PrefixKey, k: PrefixKey, pos: nat)
    requires
        covers(p, k),
        pos < p.len,
    ensures
        key_bit(k, pos) == key_bit(p, pos),
{
    lemma_prefix_bits_step(k.bits, k.len, pos + 1, p.len);
}

/// Keys of one length that a prefix of that length covers are that prefix.
pub proof fn lemma_covers_same_len(p: PrefixKey, k: PrefixKey)
    requires
        covers(p, k),
        p.len == k.len,
    ensures
        p == k,
{
    lemma_ancestor_self(k);
}

impl<'a, AF: AddressFamily, T> RadixTrieNode<'a, AF, T> {
    /// The prefix that the node stands for.
    pub open spec fn key(self) -> PrefixKey {
        PrefixKey { len: self.bit_pos as nat, bits: self.bit_id.value() }
    }

    /// The node can be the child of a node that stands for `parent`, on the side
    /// of the bit `side`: it continues the bits of `parent` with that bit.
    pub open spec fn hangs_below(self, parent: PrefixKey, side: nat) -> bool {
        &&& self.bit_pos > parent.len
        &&& ancestor(self.key(), parent.len) == parent
        &&& key_bit(self.key(), parent.len) == side
    }

    /// Every node below stands for a prefix of the address family, holds at most
    /// the prefix that it stands for, and has children that continue its bits
    /// with 0 on the left and 1 on the right.
    pub open spec fn wf(self) -> bool
        decreases self,
    {
        &&& key_ok(self.key(), AF::spec_bits())
        &&& match self.prefix {
            Some(p) => p.key() == self.key(),
            None => true,
        }
        &&& match self.left {
            Some(l) => l.wf() && l.hangs_below(self.key(), 0),
            None => true,
        }
        &&& match self.right {
            Some(r) => r.wf() && r.hangs_below(self.key(), 1),
            None => true,
        }
    }

    /// The prefix stored under the key `k` at or below this node.
    pub open spec fn find(self, k: PrefixKey) -> Option<&'a Prefix<AF, T>>
        decreases self,
    {
        if !covers(self.key(), k) {
            None
        } else if k.len == self.bit_pos {
            self.prefix
        } else if key_bit(k, self.bit_pos as nat) == 0 {
            match self.left {
                Some(l) => l.find(k),
                None => None,
            }
        } else {
            match self.right {
                Some(r) => r.find(k),
                None => None,
            }
        }
    }

    /// The counters after a prefix with the key `key` is stored at or below this
    /// node, which is on level `level`. A prefix that comes to an existing
    /// node is counted on `prefix_at`; one that is stored already is not counted.
    pub open spec fn counted(self, key: PrefixKey, stats: Seq<LevelStats>, level: int, prefix_at: int) -> Seq<
        LevelStats,
    >
        decreases self,
    {
        if key.len == self.bit_pos {
            if self.prefix.is_none() {
                raised(stats, prefix_at, 0, 1, 0)
            } else {
                stats
            }
        } else if key_bit(key, self.bit_pos as nat) == 0 {
            match self.left {
                None => raised(stats, level + 1, 1, 1, key.len - level),
                Some(c) => if covers(c.key(), key) {
                    c.counted(key, stats, level + 1, level)
                } else {
                    counted_beside(c.key(), key, stats, level)
                },
            }
        } else {
            match self.right {
                None => raised(stats, level + 1, 1, 1, key.len - level),
                Some(c) => if covers(c.key(), key) {
                    c.counted(key, stats, level + 1, level)
                } else {
                    counted_beside(c.key(), key, stats, level)
                },
            }
        }
    }

    /// Number of prefixes of `level` bits stored at or below this node.
    pub open spec fn prefixes_at(self, level: nat) -> nat
        decreases self,
    {
        (if self.bit_pos == level && self.prefix.is_some() { 1nat } else { 0nat }) + (match self.left {
            Some(l) => l.prefixes_at(level),
            None => 0,
        }) + (match self.right {
            Some(r) => r.prefixes_at(level),
            None => 0,
        })
    }

    /// Number of children of the nodes at or below this node that stand for
    /// prefixes of `level` bits.
    pub open spec fn children_at(self, level: nat) -> nat
        decreases self,
    {
        (match self.left {
            Some(l) => l.children_at(level) + if self.bit_pos == level {
                1nat
            } else {
                0nat
            },
            None => 0,
        }) + (match self.right {
            Some(r) => r.children_at(level) + if self.bit_pos == level {
                1nat
            } else {
                0nat
            },
            None => 0,
        })
    }

    /// A node without children that stands for the prefix of no bits.
    pub fn new(pfx: Option<&'a Prefix<AF, T>>) -> (r: Self)
        ensures
            r.prefix == pfx,
            r.bit_pos == 0,
            r.bit_id.value() == 0,
            r.left.is_none(),
            r.right.is_none(),
    {
        RadixTrieNode { prefix: pfx, bit_pos: 0, bit_id: AF::zero(), left: None, right: None }
    }

    /// A node without children that stands for `pfx` cut to `len` bits, and
    /// holds `pfx` if `holds` says so.
    pub fn leaf(pfx: &'a Prefix<AF, T>, len: u8, holds: bool) -> (r: Self)
        requires
            len <= pfx.len <= AF::spec_bits(),
            holds ==> len == pfx.len,
        ensures
            r.prefix == if holds {
                Some(pfx)
            } else {
                None
            },
            r.key() == ancestor(pfx.key(), len as nat),
            r.left.is_none(),
            r.right.is_none(),
            r.wf(),
    {
        proof {
            pfx.net.lemma_family();
            lemma_key_ancestor(pfx.net.value(), AF::spec_bits(), len as nat, pfx.len as nat);
            lemma_prefix_bits_bound(pfx.net.value(), AF::spec_bits(), len as nat);
        }
        RadixTrieNode {
            prefix: if holds {
                Some(pfx)
            } else {
                None
            },
            bit_pos: len,
            bit_id: AF::truncate(pfx.net, len),
            left: None,
            right: None,
        }
    }

    /// What `find` returns is stored under its own key.
    pub proof fn lemma_find_key(self, k: PrefixKey)
        requires
            self.wf(),
        ensures
            match self.find(k) {
                Some(p) => p.key() == k,
                None => true,
            },
        decreases self,
    {
        if covers(self.key(), k) {
            if k.len == self.bit_pos {
                lemma_covers_same_len(self.key(), k);
            } else if key_bit(k, self.bit_pos as nat) == 0 {
                match self.left {
                    Some(l) => {
                        l.lemma_find_key(k);
                    },
                    None => {},
                }
            } else {
                match self.right {
                    Some(r) => {
                        r.lemma_find_key(k);
                    },
                    None => {},
                }
            }
        }
    }
}

/// The prefix stored under the key `k` in the subtree of `slot`.
pub open spec fn slot_find<'a, AF: AddressFamily, T>(slot: Option<Box<RadixTrieNode<'a, AF, T>>>, k: PrefixKey) -> Option<
    &'a Prefix<AF, T>,
> {
    match slot {
        Some(c) => c.find(k),
        None => None,
    }
}

/// The subtree of `slot` is well-formed and can hang below `parent` on the side `side`.
pub open spec fn slot_wf<'a, AF: AddressFamily, T>(
    slot: Option<Box<RadixTrieNode<'a, AF, T>>>,
    parent: PrefixKey,
    side: nat,
) -> bool {
    match slot {
        Some(c) => c.wf() && c.hangs_below(parent, side),
        None => true,
    }
}

/// Counters of one level of the path-compressed trie. The level of a node is
/// the number of nodes above it at the time when it is made.
#[derive(Debug, Clone, Copy, PartialEq, Eq, Structural)]
pub struct LevelStats {
    pub level: u8,
    /// Prefix length less level, added up over the nodes made on this level.
    pub compression: u16,
    /// Nodes made on this level.
    pub nodes_num: u32,
    /// Prefixes counted on this level.
    pub prefixes_num: u32,
}

/// The counters with those of level `at` raised by `nodes` nodes, `prefixes`
/// prefixes and `skipped` bits of compression.
pub open spec fn raised(stats: Seq<LevelStats>, at: int, nodes: int, prefixes: int, skipped: int) -> Seq<LevelStats> {
    stats.update(
        at,
        LevelStats {
            level: stats[at].level,
            compression: (stats[at].compression + skipped) as u16,
            nodes_num: (stats[at].nodes_num + nodes) as u32,
            prefixes_num: (stats[at].prefixes_num + prefixes) as u32,
        },
    )
}

/// There is a counter for every level up to `bits`, and none is so close to its
/// limit that one more insert could take it there.
pub open spec fn counters_have_room(stats: Seq<LevelStats>, bits: nat) -> bool {
    &&& stats.len() == bits + 1
    &&& forall|l: int|
        0 <= l <= bits ==> (#[trigger] stats[l]).nodes_num < u32::MAX && stats[l].prefixes_num < u32::MAX
            && stats[l].compression + bits <= u16::MAX
}

/// From `before` to `after` no counter fell, none of nodes or prefixes rose by
/// more than one, and none of compression by more than `bits`.
pub open spec fn counters_stepped(before: Seq<LevelStats>, after: Seq<LevelStats>, bits: nat) -> bool {
    &&& after.len() == before.len()
    &&& forall|l: int|
        0 <= l < before.len() ==> {
            &&& (#[trigger] after[l]).level == before[l].level
            &&& before[l].nodes_num <= after[l].nodes_num <= before[l].nodes_num + 1
            &&& before[l].prefixes_num <= after[l].prefixes_num <= before[l].prefixes_num + 1
            &&& before[l].compression <= after[l].compression <= before[l].compression + bits
        }
}

/// The counters after a prefix with the key `key` is put beside or above a
/// node that stands for `child` and does not cover `key`, below a node on
/// level `level`. If `key` covers `child`, the new node takes the place of
/// the child and is counted on `level` itself; else a node is made where the
/// two part ways and counted, with the prefix, on the next level, and the
/// leaf of the prefix on the level after that.
pub open spec fn counted_beside(child: PrefixKey, key: PrefixKey, stats: Seq<LevelStats>, level: int) -> Seq<LevelStats> {
    if covers(key, child) {
        raised(stats, level, 1, 1, key.len - level)
    } else {
        raised(raised(stats, level + 1, 1, 1, key.len - level), level + 2, 1, 0, 0)
    }
}

/// The counters after a prefix with the key `key` is stored in the subtree of
/// `slot`, which hangs below a node on level `level`. A leaf in an empty slot
/// is counted, with its prefix, on the next level.
pub open spec fn slot_counted<'a, AF: AddressFamily, T>(
    slot: Option<Box<RadixTrieNode<'a, AF, T>>>,
    key: PrefixKey,
    stats: Seq<LevelStats>,
    level: int,
) -> Seq<LevelStats> {
    match slot {
        None => raised(stats, level + 1, 1, 1, key.len - level),
        Some(c) => if covers(c.key(), key) {
            c.counted(key, stats, level + 1, level)
        } else {
            counted_beside(c.key(), key, stats, level)
        },
    }
}

/// Raises the counters of level `at`.
pub fn raise(stats: &mut Vec<LevelStats>, at: u8, nodes: u32, prefixes: u32, skipped: u16)
    requires
        at < old(stats)@.len(),
        old(stats)@[at as int].nodes_num + nodes <= u32::MAX,
        old(stats)@[at as int].prefixes_num + prefixes <= u32::MAX,
        old(stats)@[at as int].compression + skipped <= u16::MAX,
    ensures
        final(stats)@ == raised(old(stats)@, at as int, nodes as int, prefixes as int, skipped as int),
{
    let mut counter = stats[at as usize];
    counter.nodes_num = counter.nodes_num + nodes;
    counter.prefixes_num = counter.prefixes_num + prefixes;
    counter.compression = counter.compression + skipped;
    stats[at as usize] = counter;
}

/// Where the keys of the addresses `x` and `y`, cut to `lx` and `ly` bits, part
/// ways: they have the same ancestor of `m` bits, and if both go on beyond
/// `m` bits, they go on with different bits.
pub proof fn lemma_parting(x: nat, y: nat, bits: nat, lx: nat, ly: nat, common: nat, m: nat)
    requires
        lx <= bits,
        ly <= bits,
        common <= bits,
        prefix_bits(x, bits, common) == prefix_bits(y, bits, common),
        common < bits ==> prefix_bits(x, bits, common + 1) != prefix_bits(y, bits, common + 1),
        m <= common,
        m <= lx,
        m <= ly,
        m == common || m == lx || m == ly,
    ensures
        ancestor(key_of(x, bits, lx), m) == ancestor(key_of(y, bits, ly), m),
        ancestor(key_of(x, bits, lx), m) == key_of(x, bits, m),
        m < lx && m < ly ==> key_bit(key_of(x, bits, lx), m) != key_bit(key_of(y, bits, ly), m),
{
    lemma_key_ancestor(x, bits, m, lx);
    lemma_key_ancestor(y, bits, m, ly);
    lemma_prefix_bits_step(x, bits, m, common);
    lemma_prefix_bits_step(y, bits, m, common);
    if m < lx && m < ly {
        crate::common::lemma_key_bit(x, bits, lx, m);
        crate::common::lemma_key_bit(y, bits, ly, m);
        lemma_prefix_bits_split(x, bits, m, 1);
        lemma_prefix_bits_split(y, bits, m, 1);
    }
}

impl<'a, AF: AddressFamily, T> RadixTrieNode<'a, AF, T> {
    /// Puts a new node for `pfx` cut to `m` bits above `node`, which parts ways
    /// with `pfx` after `m` bits and hung below a node on level `level`. The new
    /// node holds `pfx` if `pfx` ends there, and else has a leaf for `pfx`
    /// beside `node`.
    pub fn branch_off(
        node: Self,
        pfx: &'a Prefix<AF, T>,
        m: u8,
        child_side: u32,
        stats: &mut Vec<LevelStats>,
        level: u8,
    ) -> (mid: Self)
        requires
            level < m,
            node.wf(),
            m <= pfx.len <= AF::spec_bits(),
            m < node.bit_pos,
            ancestor(pfx.key(), m as nat) == ancestor(node.key(), m as nat),
            key_bit(node.key(), m as nat) == child_side,
            m < pfx.len ==> key_bit(pfx.key(), m as nat) != child_side,
            counters_have_room(old(stats)@, AF::spec_bits()),
        ensures
            mid.wf(),
            mid.key() == ancestor(pfx.key(), m as nat),
            node.find(pfx.key()).is_none(),
            !covers(node.key(), pfx.key()),
            final(stats)@ == counted_beside(node.key(), pfx.key(), old(stats)@, level as int),
            counters_stepped(old(stats)@, final(stats)@, AF::spec_bits()),
            forall|k: PrefixKey| #[trigger]
                mid.find(k) == if k == pfx.key() {
                    Some(pfx)
                } else {
                    node.find(k)
                },
    {
        let ghost key = pfx.key();
        let ghost ckey = node.key();
        let holds = m == pfx.len;
        let mut mid = RadixTrieNode::leaf(pfx, m, holds);
        let ghost mkey = mid.key();
        proof {
            lemma2_to64();
            lemma_ancestor_self(key);
            assert(covers(mkey, ckey));
            assert(covers(mkey, key));
            if covers(ckey, key) {
                lemma_covered_bit(ckey, key, m as nat);
            }
            if covers(key, ckey) && !holds {
                lemma_covered_bit(key, ckey, m as nat);
            }
            assert(covers(key, ckey) <==> holds);
        }
        if holds {
            if child_side == 0 {
                mid.left = Some(Box::new(node));
            } else {
                mid.right = Some(Box::new(node));
            }
            raise(stats, level, 1, 1, (pfx.len - level) as u16);
            proof {
                assert forall|k: PrefixKey| #[trigger] mid.find(k) == if k == key {
                    Some(pfx)
                } else {
                    node.find(k)
                } by {
                    if covers(ckey, k) {
                        lemma_covers_transitive(mkey, ckey, k);
                        lemma_covered_bit(ckey, k, m as nat);
                    }
                    if covers(mkey, k) && k.len == mkey.len {
                        lemma_covers_same_len(mkey, k);
                    }
                }
            }
        } else {
            let leaf = RadixTrieNode::leaf(pfx, pfx.len, true);
            if child_side == 0 {
                mid.left = Some(Box::new(node));
                mid.right = Some(Box::new(leaf));
            } else {
                mid.right = Some(Box::new(node));
                mid.left = Some(Box::new(leaf));
            }
            raise(stats, level + 1, 1, 1, (pfx.len - level) as u16);
            raise(stats, level + 2, 1, 0, 0);
            proof {
                assert forall|k: PrefixKey| #[trigger] mid.find(k) == if k == key {
                    Some(pfx)
                } else {
                    node.find(k)
                } by {
                    if covers(ckey, k) {
                        lemma_covers_transitive(mkey, ckey, k);
                        lemma_covered_bit(ckey, k, m as nat);
                    }
                    if covers(mkey, k) && k.len == mkey.len {
                        lemma_covers_same_len(mkey, k);
                    }
                    if covers(key, k) {
                        lemma_covered_bit(key, k, m as nat);
                        if k.len == key.len {
                            lemma_covers_same_len(key, k);
                        }
                    }
                    assert(leaf.find(k) == if k == key {
                        Some(pfx)
                    } else {
                        None
                    });
                }
            }
        }
        mid
    }

    /// Stores `pfx` at or below this node, which covers `pfx` and is on level
    /// `level`. If `pfx` comes to this node itself, it is counted on `prefix_at`.
    pub fn insert_below(
        &mut self,
        pfx: &'a Prefix<AF, T>,
        stats: &mut Vec<LevelStats>,
        level: u8,
        prefix_at: u8,
    ) -> (r: Result<(), StoreError>)
        requires
            old(self).wf(),
            pfx.valid(),
            covers(old(self).key(), pfx.key()),
            prefix_at <= level <= old(self).bit_pos,
            counters_have_room(old(stats)@, AF::spec_bits()),
        ensures
            final(self).wf(),
            final(self).key() == old(self).key(),
            final(stats)@ == old(self).counted(pfx.key(), old(stats)@, level as int, prefix_at as int),
            counters_stepped(old(stats)@, final(stats)@, AF::spec_bits()),
            match r {
                Ok(()) => old(self).find(pfx.key()).is_none() && forall|k: PrefixKey| #[trigger]
                    final(self).find(k) == if k == pfx.key() {
                        Some(pfx)
                    } else {
                        old(self).find(k)
                    },
                Err(e) => e == StoreError::Duplicate && old(self).find(pfx.key()).is_some() && *final(self)
                    == *old(self) && final(stats)@ == old(stats)@,
            },
        decreases AF::spec_bits() - old(self).bit_pos, 1int,
    {
        let ghost key = pfx.key();
        let ghost ckey = self.key();
        let ghost before = *self;
        proof {
            pfx.net.lemma_family();
            lemma2_to64();
        }
        if pfx.len == self.bit_pos {
            proof {
                lemma_covers_same_len(ckey, key);
            }
            if self.prefix.is_some() {
                return Err(StoreError::Duplicate);
            }
            self.prefix = Some(pfx);
            raise(stats, prefix_at, 0, 1, 0);
            proof {
                assert forall|k: PrefixKey| #[trigger] self.find(k) == if k == key {
                    Some(pfx)
                } else {
                    before.find(k)
                } by {
                    if covers(ckey, k) && k.len == ckey.len {
                        lemma_covers_same_len(ckey, k);
                    }
                }
            }
            return Ok(());
        }
        let bit = AF::get_nibble(pfx.net, self.bit_pos, 1);
        proof {
            crate::common::lemma_key_bit(pfx.net.value(), AF::spec_bits(), pfx.len as nat, self.bit_pos as nat);
        }
        let r = if bit == 0 {
            RadixTrieNode::insert_into(&mut self.left, pfx, self.bit_pos, stats, level)
        } else {
            RadixTrieNode::insert_into(&mut self.right, pfx, self.bit_pos, stats, level)
        };
        proof {
            if r.is_ok() {
                assert forall|k: PrefixKey| #[trigger] self.find(k) == if k == key {
                    Some(pfx)
                } else {
                    before.find(k)
                } by {
                    if covers(ckey, k) && k.len != ckey.len {
                        if key_bit(k, ckey.len) == 0 {
                            assert(slot_find(self.left, k) == if k == key && bit == 0 {
                                Some(pfx)
                            } else {
                                slot_find(before.left, k)
                            });
                        } else {
                            assert(slot_find(self.right, k) == if k == key && bit != 0 {
                                Some(pfx)
                            } else {
                                slot_find(before.right, k)
                            });
                        }
                    }
                }
            }
        }
        r
    }

    /// Stores `pfx` in the subtree of `slot`, which hangs below a node of
    /// `above` bits on level `level` that covers `pfx`, on the side that the
    /// next bit of `pfx` names.
    pub fn insert_into(
        slot: &mut Option<Box<RadixTrieNode<'a, AF, T>>>,
        pfx: &'a Prefix<AF, T>,
        above: u8,
        stats: &mut Vec<LevelStats>,
        level: u8,
    ) -> (r: Result<(), StoreError>)
        requires
            level <= above < pfx.len <= AF::spec_bits(),
            slot_wf(*old(slot), ancestor(pfx.key(), above as nat), key_bit(pfx.key(), above as nat)),
            counters_have_room(old(stats)@, AF::spec_bits()),
        ensures
            slot_wf(*final(slot), ancestor(pfx.key(), above as nat), key_bit(pfx.key(), above as nat)),
            final(stats)@ == slot_counted(*old(slot), pfx.key(), old(stats)@, level as int),
            counters_stepped(old(stats)@, final(stats)@, AF::spec_bits()),
            match r {
                Ok(()) => slot_find(*old(slot), pfx.key()).is_none() && forall|k: PrefixKey| #[trigger]
                    slot_find(*final(slot), k) == if k == pfx.key() {
                        Some(pfx)
                    } else {
                        slot_find(*old(slot), k)
                    },
                Err(e) => e == StoreError::Duplicate && slot_find(*old(slot), pfx.key()).is_some() && *final(slot)
                    == *old(slot) && final(stats)@ == old(stats)@,
            },
        decreases AF::spec_bits() - above, 0int,
    {
        let ghost bits = AF::spec_bits();
        let ghost net = pfx.net.value();
        let ghost key = pfx.key();
        proof {
            pfx.net.lemma_family();
            lemma2_to64();
            lemma_prefix_bits_bound(net, bits, pfx.len as nat);
            lemma_ancestor_self(key);
        }
        match slot.take() {
            None => {
                let leaf = RadixTrieNode::leaf(pfx, pfx.len, true);
                proof {
                    assert forall|k: PrefixKey| #[trigger] leaf.find(k) == if k == key {
                        Some(pfx)
                    } else {
                        None
                    } by {
                        if covers(key, k) && k.len == key.len {
                            lemma_covers_same_len(key, k);
                        }
                    }
                }
                *slot = Some(Box::new(leaf));
                raise(stats, level + 1, 1, 1, (pfx.len - level) as u16);
                Ok(())
            },
            Some(child) => {
                let mut node = *child;
                let ghost ckey = node.key();
                let aligned = AF::left_align(node.bit_id, node.bit_pos);
                let common = AF::common_prefix_len(pfx.net, aligned);
                let limit = if pfx.len < node.bit_pos {
                    pfx.len
                } else {
                    node.bit_pos
                };
                let m = if common < limit {
                    common
                } else {
                    limit
                };
                proof {
                    lemma_meeting_point(
                        net,
                        aligned.value(),
                        bits,
                        pfx.len as nat,
                        node.bit_pos as nat,
                        above as nat,
                        common as nat,
                        m as nat,
                    );
                }
                if m == node.bit_pos {
                    let r = node.insert_below(pfx, stats, level + 1, level);
                    *slot = Some(Box::new(node));
                    r
                } else {
                    let child_side = AF::get_nibble(aligned, m, 1);
                    proof {
                        crate::common::lemma_key_bit(aligned.value(), bits, node.bit_pos as nat, m as nat);
                    }
                    let mid = RadixTrieNode::branch_off(node, pfx, m, child_side, stats, level);
                    proof {
                        lemma_covered_bit(mid.key(), key, above as nat);
                        lemma_ancestor_twice(key, above as nat, m as nat);
                    }
                    *slot = Some(Box::new(mid));
                    Ok(())
                }
            },
        }
    }
}

/// Where the prefix of `lx` bits of the address `x` meets a node that stands
/// for the `ly` leading bits of the address `y`, when both continue a common
/// ancestor of `above` bits with the same bit: they share their leading `m`
/// bits, `m` being the least of their lengths and the number of leading bits
/// that `x` and `y` have in common.
pub proof fn lemma_meeting_point(x: nat, y: nat, bits: nat, lx: nat, ly: nat, above: nat, common: nat, m: nat)
    requires
        above < lx <= bits,
        above < ly <= bits,
        common <= bits,
        prefix_bits(x, bits, common) == prefix_bits(y, bits, common),
        common < bits ==> prefix_bits(x, bits, common + 1) != prefix_bits(y, bits, common + 1),
        ancestor(key_of(y, bits, ly), above) == ancestor(key_of(x, bits, lx), above),
        key_bit(key_of(y, bits, ly), above) == key_bit(key_of(x, bits, lx), above),
        m <= common,
        m <= lx,
        m <= ly,
        m == common || m == lx || m == ly,
    ensures
        above < m,
        ancestor(key_of(x, bits, lx), m) == ancestor(key_of(y, bits, ly), m),
        m == ly ==> covers(key_of(y, bits, ly), key_of(x, bits, lx)),
        m < lx && m < ly ==> key_bit(key_of(x, bits, lx), m) != key_bit(key_of(y, bits, ly), m),
{
    lemma_key_ancestor(x, bits, above, lx);
    lemma_key_ancestor(y, bits, above, ly);
    crate::common::lemma_key_bit(x, bits, lx, above);
    crate::common::lemma_key_bit(y, bits, ly, above);
    lemma_prefix_bits_split(x, bits, above, 1);
    lemma_prefix_bits_split(y, bits, above, 1);
    vstd::arithmetic::power2::lemma2_to64();
    assert(prefix_bits(x, bits, above + 1) == prefix_bits(y, bits, above + 1));
    if common <= above {
        lemma_prefix_bits_step(x, bits, common + 1, above + 1);
        lemma_prefix_bits_step(y, bits, common + 1, above + 1);
    }
    lemma_parting(x, y, bits, lx, ly, common, m);
    lemma_ancestor_self(key_of(y, bits, ly));
}

/// The path-compressed trie: its root, which stands for the prefix of no
/// bits, and one block of counters per level.
pub struct RadixTrie<'a, AF: AddressFamily, T>(pub RadixTrieNode<'a, AF, T>, pub Vec<LevelStats>);

impl<'a, AF: AddressFamily, T> RadixTrie<'a, AF, T> {
    /// The prefix stored under the key `k`.
    pub open spec fn get(self, k: PrefixKey) -> Option<&'a Prefix<AF, T>> {
        self.0.find(k)
    }

    /// The keys of the stored prefixes.
    pub open spec fn keys(self) -> Set<PrefixKey> {
        Set::new(|k: PrefixKey| self.get(k).is_some())
    }

    /// The nodes are well-formed below a root of no bits, and there is a
    /// counter for every level that a node can be on.
    pub open spec fn wf(self) -> bool {
        &&& self.0.wf()
        &&& self.0.key() == PrefixKey { len: 0, bits: 0 }
        &&& self.1@.len() == AF::spec_bits() + 1
        &&& forall|l: int| 0 <= l <= AF::spec_bits() ==> (#[trigger] self.1@[l]).level == l
    }

    /// No counter is so close to its limit that one more insert could take it there.
    pub open spec fn has_room(self) -> bool {
        counters_have_room(self.1@, AF::spec_bits())
    }

    /// `r` is what a lookup of `q` has to return: the stored prefix with the
    /// longest key that covers `q`.
    pub open spec fn is_longest_match(self, q: PrefixKey, r: Option<&'a Prefix<AF, T>>) -> bool {
        match r {
            Some(p) => self.get(p.key()) == Some(p) && longest_match(self.keys(), q) == Some(p.key()),
            None => longest_match(self.keys(), q).is_none(),
        }
    }

    /// Whether a counter is so close to its limit that one more insert could
    /// take it there.
    pub fn is_full(&self) -> (r: bool)
        ensures
            r == !self.has_room(),
    {
        let bits = AF::bits();
        proof {
            AF::lemma_width();
        }
        if self.1.len() != bits as usize + 1 {
            return true;
        }
        let mut level: usize = 0;
        while level < self.1.len()
            invariant
                bits == AF::spec_bits(),
                bits <= 128,
                self.1@.len() == bits + 1,
                level <= self.1@.len(),
                forall|l: int|
                    0 <= l < level ==> (#[trigger] self.1@[l]).nodes_num < u32::MAX && self.1@[l].prefixes_num
                        < u32::MAX && self.1@[l].compression + bits <= u16::MAX,
            decreases self.1@.len() - level,
        {
            let counter = self.1[level];
            if counter.nodes_num == u32::MAX || counter.prefixes_num == u32::MAX || counter.compression > u16::MAX
                - bits as u16 {
                return true;
            }
            level += 1;
        }
        false
    }

    /// An empty trie, with all counters at zero.
    pub fn new() -> (r: Self)
        ensures
            r.wf(),
            r.has_room(),
            r.keys() == Set::<PrefixKey>::empty(),
            r.0.prefix.is_none() && r.0.left.is_none() && r.0.right.is_none(),
            forall|l: int|
                0 <= l < r.1@.len() ==> (#[trigger] r.1@[l]).nodes_num == 0 && r.1@[l].prefixes_num == 0
                    && r.1@[l].compression == 0,
    {
        let mut stats: Vec<LevelStats> = Vec::new();
        let bits = AF::bits();
        let mut level: u8 = 0;
        proof {
            AF::lemma_width();
            lemma2_to64();
        }
        while level <= bits
            invariant
                bits == AF::spec_bits(),
                bits <= 128,
                level <= bits + 1,
                stats@.len() == level,
                forall|l: int|
                    0 <= l < level ==> (#[trigger] stats@[l]).level == l && stats@[l].nodes_num == 0
                        && stats@[l].prefixes_num == 0 && stats@[l].compression == 0,
            decreases bits + 1 - level,
        {
            stats.push(LevelStats { level, compression: 0, nodes_num: 0, prefixes_num: 0 });
            level += 1;
        }
        let r = RadixTrie(RadixTrieNode::new(None), stats);
        proof {
            assert(r.keys() =~= Set::<PrefixKey>::empty());
        }
        r
    }

    /// Stores `pfx`. A prefix longer than the address is refused, and so is one
    /// whose network and length are stored already; neither changes the trie.
    /// What is made is counted on the level that the walk has reached. No
    /// counter may be close to its limit, which `is_full` tells.
    pub fn insert(&mut self, pfx: &'a Prefix<AF, T>) -> (r: Result<(), StoreError>)
        requires
            old(self).wf(),
            old(self).has_room(),
        ensures
            final(self).wf(),
            pfx.valid() ==> final(self).1@ == old(self).0.counted(pfx.key(), old(self).1@, 0, 0),
            counters_stepped(old(self).1@, final(self).1@, AF::spec_bits()),
            match r {
                Ok(()) => pfx.valid() && !old(self).keys().contains(pfx.key()) && final(self).keys() == old(
                    self,
                ).keys().insert(pfx.key()) && forall|k: PrefixKey| #[trigger]
                    final(self).get(k) == if k == pfx.key() {
                        Some(pfx)
                    } else {
                        old(self).get(k)
                    },
                Err(e) => final(self).0 == old(self).0 && final(self).1@ == old(self).1@ && e == if pfx.valid() {
                    StoreError::Duplicate
                } else {
                    StoreError::InvalidPrefix
                } && (pfx.valid() ==> old(self).keys().contains(pfx.key())),
            },
    {
        if pfx.len > AF::bits() {
            return Err(StoreError::InvalidPrefix);
        }
        proof {
            pfx.net.lemma_family();
            lemma_prefix_bits_bound(pfx.net.value(), AF::spec_bits(), pfx.len as nat);
            lemma_key_ancestor(pfx.net.value(), AF::spec_bits(), 0, pfx.len as nat);
            lemma_prefix_bits_ends(pfx.net.value(), AF::spec_bits());
        }
        let r = self.0.insert_below(pfx, &mut self.1, 0, 0);
        proof {
            if r.is_ok() {
                assert(self.keys() =~= old(self).keys().insert(pfx.key()));
            }
        }
        r
    }

    /// Looks up the most specific stored prefix that covers the query; nothing
    /// if none does or the query is longer than the address.
    pub fn match_longest_prefix(&self, search_pfx: &Prefix<AF, NoMeta>) -> (r: Option<&'a Prefix<AF, T>>)
        requires
            self.wf(),
        ensures
            search_pfx.valid() ==> self.is_longest_match(search_pfx.key(), r),
            !search_pfx.valid() ==> r.is_none(),
    {
        if search_pfx.len > AF::bits() {
            return None;
        }
        let ghost net = search_pfx.net.value();
        let ghost bits = AF::spec_bits();
        let ghost q = search_pfx.key();
        let ghost keys = self.keys();
        proof {
            search_pfx.net.lemma_family();
            lemma_prefix_bits_ends(net, bits);
            lemma_key_ancestor(net, bits, 0, search_pfx.len as nat);
            lemma2_to64();
            lemma_covers_same_len(self.0.key(), key_of(net, bits, 0));
        }
        let mut cursor = &self.0;
        let mut match_pfx: Option<&'a Prefix<AF, T>> = cursor.prefix;
        let mut done = false;
        let ghost mut upto: nat = 0;
        while !done && cursor.bit_pos < search_pfx.len
            invariant
                self.wf(),
                keys == self.keys(),
                bits == AF::spec_bits(),
                net == search_pfx.net.value(),
                net < pow2(bits),
                q == key_of(net, bits, search_pfx.len as nat),
                search_pfx.len <= bits,
                cursor.wf(),
                cursor.bit_pos <= search_pfx.len,
                cursor.key() == key_of(net, bits, cursor.bit_pos as nat),
                forall|l: nat|
                    cursor.bit_pos <= l <= search_pfx.len ==> self.0.find(#[trigger] key_of(net, bits, l))
                        == cursor.find(key_of(net, bits, l)),
                !done ==> upto == cursor.bit_pos,
                done ==> upto == search_pfx.len,
                match match_pfx {
                    Some(p) => self.get(p.key()) == Some(p) && longest_match_upto(keys, q, upto) == Some(p.key()),
                    None => longest_match_upto(keys, q, upto).is_none(),
                },
            decreases search_pfx.len - cursor.bit_pos + (if done { 0int } else { 1int }),
        {
            let pos = cursor.bit_pos;
            let bit = AF::get_nibble(search_pfx.net, pos, 1);
            let next = if bit == 0 {
                &cursor.left
            } else {
                &cursor.right
            };
            let ghost above = *cursor;
            proof {
                lemma2_to64();
                assert(slot_wf(*next, above.key(), bit as nat));
                assert forall|l: nat| pos < l <= search_pfx.len implies key_bit(
                    #[trigger] key_of(net, bits, l),
                    pos as nat,
                ) == bit && covers(above.key(), key_of(net, bits, l)) && above.find(key_of(net, bits, l))
                    == slot_find(*next, key_of(net, bits, l)) by {
                    crate::common::lemma_key_bit(net, bits, l, pos as nat);
                    lemma_key_ancestor(net, bits, pos as nat, l);
                }
            }
            let mut step = false;
            match next {
                Some(child) => {
                    if child.bit_pos <= search_pfx.len {
                        let aligned = AF::left_align(child.bit_id, child.bit_pos);
                        let common = AF::common_prefix_len(search_pfx.net, aligned);
                        proof {
                            let y = aligned.value();
                            let cpos = child.bit_pos as nat;
                            if common >= child.bit_pos {
                                lemma_prefix_bits_step(net, bits, cpos, common as nat);
                                lemma_prefix_bits_step(y, bits, cpos, common as nat);
                            } else {
                                lemma_prefix_bits_step(net, bits, common as nat + 1, cpos);
                                lemma_prefix_bits_step(y, bits, common as nat + 1, cpos);
                            }
                            assert(common >= child.bit_pos <==> child.key() == key_of(net, bits, cpos));
                        }
                        if common >= child.bit_pos {
                            step = true;
                        }
                    }
                    if step {
                        cursor = child;
                        proof {
                            let cpos = cursor.bit_pos as nat;
                            let k = key_of(net, bits, cpos);
                            assert forall|l: nat| pos < l < cpos implies !keys.contains(#[trigger] ancestor(q, l)) by {
                                lemma_key_ancestor(net, bits, l, search_pfx.len as nat);
                                let kl = key_of(net, bits, l);
                                assert(self.0.find(kl) == above.find(kl));
                                assert(above.find(kl) == cursor.find(kl));
                            }
                            lemma_no_longer_match(keys, q, pos as nat, (cpos - 1) as nat);
                            lemma_key_ancestor(net, bits, cpos, search_pfx.len as nat);
                            lemma_ancestor_self(k);
                            assert forall|l: nat| cpos <= l <= search_pfx.len implies self.0.find(
                                #[trigger] key_of(net, bits, l),
                            ) == cursor.find(key_of(net, bits, l)) by {
                                let kl = key_of(net, bits, l);
                                assert(self.0.find(kl) == above.find(kl));
                                assert(above.find(kl) == cursor.find(kl));
                            }
                            assert(self.0.find(k) == cursor.prefix);
                            assert(keys.contains(k) <==> cursor.prefix.is_some());
                            assert(longest_match_upto(keys, q, cpos) == if keys.contains(k) {
                                Some(k)
                            } else {
                                longest_match_upto(keys, q, (cpos - 1) as nat)
                            });
                            upto = cpos;
                        }
                        match cursor.prefix {
                            Some(p) => {
                                match_pfx = Some(p);
                            },
                            None => {},
                        }
                    } else {
                        proof {
                            assert forall|l: nat| pos < l <= search_pfx.len implies !keys.contains(
                                #[trigger] ancestor(q, l),
                            ) by {
                                lemma_key_ancestor(net, bits, l, search_pfx.len as nat);
                                let kl = key_of(net, bits, l);
                                assert(self.0.find(kl) == above.find(kl));
                                if covers(child.key(), kl) {
                                    lemma_key_ancestor(net, bits, child.bit_pos as nat, l);
                                }
                                assert(above.find(kl).is_none());
                            }
                            lemma_no_longer_match(keys, q, pos as nat, search_pfx.len as nat);
                            upto = search_pfx.len as nat;
                        }
                        done = true;
                    }
                },
                None => {
                    proof {
                        assert forall|l: nat| pos < l <= search_pfx.len implies !keys.contains(
                            #[trigger] ancestor(q, l),
                        ) by {
                            lemma_key_ancestor(net, bits, l, search_pfx.len as nat);
                            let kl = key_of(net, bits, l);
                            assert(self.0.find(kl) == above.find(kl));
                            assert(above.find(kl).is_none());
                        }
                        lemma_no_longer_match(keys, q, pos as nat, search_pfx.len as nat);
                        upto = search_pfx.len as nat;
                    }
                    done = true;
                },
            }
        }
        match_pfx
    }
}

impl<'a, AF: AddressFamily, T> RadixTrie<'a, AF, T> {
    /// Adds to `levels` the children and the prefixes of the nodes at and below `node`.
    fn traverse(node: Box<RadixTrieNode<'a, AF, T>>, levels: Vec<(usize, usize)>) -> (r: Vec<(usize, usize)>)
        requires
            node.wf(),
            levels@.len() == AF::spec_bits() + 1,
            forall|l: int|
                0 <= l < levels@.len() ==> (#[trigger] levels@[l]).0 + node.children_at(l as nat) <= usize::MAX
                    && levels@[l].1 + node.prefixes_at(l as nat) <= usize::MAX,
        ensures
            r@.len() == levels@.len(),
            forall|l: int|
                0 <= l < levels@.len() ==> (#[trigger] r@[l]).0 == levels@[l].0 + node.children_at(l as nat)
                    && r@[l].1 == levels@[l].1 + node.prefixes_at(l as nat),
        decreases node,
    {
        let node = *node;
        let l = node.bit_pos as usize;
        let mut levels = levels;
        if node.prefix.is_some() {
            let counts = levels[l];
            levels[l] = (counts.0, counts.1 + 1);
        }
        match node.left {
            Some(left) => {
                let counts = levels[l];
                levels[l] = (counts.0 + 1, counts.1);
                levels = Self::traverse(left, levels);
            },
            None => {},
        }
        match node.right {
            Some(right) => {
                let counts = levels[l];
                levels[l] = (counts.0 + 1, counts.1);
                levels = Self::traverse(right, levels);
            },
            None => {},
        }
        levels
    }

    /// For every prefix length, the number of children that the nodes of that
    /// length have, and the number of prefixes of that length.
    pub fn traverse_count(self) -> (r: Vec<(usize, usize)>)
        requires
            self.wf(),
            forall|l: nat|
                l <= AF::spec_bits() ==> #[trigger] self.0.children_at(l) <= usize::MAX && self.0.prefixes_at(l)
                    <= usize::MAX,
        ensures
            r@.len() == AF::spec_bits() + 1,
            forall|l: int|
                0 <= l <= AF::spec_bits() ==> (#[trigger] r@[l]).0 == self.0.children_at(l as nat) && r@[l].1
                    == self.0.prefixes_at(l as nat),
    {
        let bits = AF::bits();
        let mut levels: Vec<(usize, usize)> = Vec::new();
        let mut level: u8 = 0;
        proof {
            AF::lemma_width();
        }
        while level <= bits
            invariant
                bits == AF::spec_bits(),
                bits <= 128,
                level <= bits + 1,
                levels@.len() == level,
                forall|l: int| 0 <= l < level ==> #[trigger] levels@[l] == (0usize, 0usize),
            decreases bits + 1 - level,
        {
            levels.push((0, 0));
            level += 1;
        }
        proof {
            assert forall|l: int| 0 <= l < levels@.len() implies (#[trigger] levels@[l]).0 + self.0.children_at(
                l as nat,
            ) <= usize::MAX && levels@[l].1 + self.0.prefixes_at(l as nat) <= usize::MAX by {
                assert(self.0.children_at(l as nat) <= usize::MAX);
            }
        }
        Self::traverse(Box::new(self.0), levels)
    }
}

} // verus!
