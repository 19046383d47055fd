//! One node of the tree-bitmap: two bitmaps and the two dense vectors that
//! they index.

use vstd::prelude::*;
use vstd::arithmetic::power2::{pow2, lemma2_to64, lemma_pow2_pos, lemma_pow2_strictly_increases, lemma_pow2_unfold};
use crate::bitset::{
    count_in, rank, lemma_count_insert, lemma_count_none, lemma_rank_in_range, lemma_rank_insert,
};
use crate::common::{AddressFamily, Prefix, NoMeta};
use crate::lpm::nibble_bits;
use crate::treebitmap::wide::{U256, U512};
use crate::treebitmap::stride::{
    Stride, child_pos, pfx_width, ptr_width, slot_id, slot_pos, valid_slot, lemma_slot_pos,
};

verus! {

/// A node of a stride of type `S`.
///
/// `pfx_vec` holds one entry for every one in `pfxbitarr`: the canonical network
/// of a stored prefix and its index in the tree's prefix arena. `ptr_vec` holds
/// one entry for every one in `ptrbitarr`: the slot number of a child and its
/// index in the tree's node arena. Both are ordered by slot.
pub struct TreeBitMapNode<AF: AddressFamily, S: Stride> {
    pub ptrbitarr: S::PtrSize,
    pub pfxbitarr: S,
    pub pfx_vec: Vec<(AF, u32)>,
    pub ptr_vec: Vec<(u16, u32)>,
}

/// Different slots have different numbers.
pub proof fn lemma_slot_id_injective(n1: nat, l1: nat, n2: nat, l2: nat)
    requires
        n1 < pow2(l1),
        n2 < pow2(l2),
        slot_id(n1, l1) == slot_id(n2, l2),
    ensures
        n1 == n2,
        l1 == l2,
{
    lemma_pow2_pos(l1);
    lemma_pow2_pos(l2);
    if l1 < l2 {
        lemma_pow2_unfold(l1 + 1);
        if l1 + 1 < l2 {
            lemma_pow2_strictly_increases(l1 + 1, l2);
        }
    } else if l2 < l1 {
        lemma_pow2_unfold(l2 + 1);
        if l2 + 1 < l1 {
            lemma_pow2_strictly_increases(l2 + 1, l1);
        }
    }
}

impl<AF: AddressFamily, S: Stride> TreeBitMapNode<AF, S> {
    /// The positions at which the prefix bitmap holds a one.
    pub open spec fn pfx_bits(self) -> Set<nat> {
        self.pfxbitarr.bits()
    }

    /// The positions at which the pointer bitmap holds a one.
    pub open spec fn ptr_bits(self) -> Set<nat> {
        S::ptr_bits(self.ptrbitarr)
    }

    /// Each vector is as long as its bitmap has ones.
    pub open spec fn coherent(self) -> bool {
        &&& count_in(self.pfx_bits(), 0, pfx_width(S::spec_stride_len())) == self.pfx_vec.len()
        &&& count_in(self.ptr_bits(), 0, ptr_width(S::spec_stride_len())) == self.ptr_vec.len()
    }

    /// The node stores a prefix that ends with the nibble `(nibble, len)`.
    pub open spec fn has_prefix(self, nibble: nat, len: nat) -> bool {
        self.pfx_bits().contains(slot_pos(S::spec_stride_len(), nibble, len))
    }

    /// The entry that `get_pfx_index` retrieves for the slot `(nibble, len)`.
    pub open spec fn prefix_entry(self, nibble: nat, len: nat) -> (AF, u32) {
        self.pfx_vec@[rank(
            self.pfx_bits(),
            slot_pos(S::spec_stride_len(), nibble, len),
            pfx_width(S::spec_stride_len()),
        )]
    }

    /// The node has a child for the full nibble `nibble`.
    pub open spec fn has_child(self, nibble: nat) -> bool {
        self.ptr_bits().contains(child_pos(S::spec_stride_len(), nibble))
    }

    /// The entry that `get_ptr_index` retrieves for the full nibble `nibble`.
    pub open spec fn child_entry(self, nibble: nat) -> (u16, u32) {
        self.ptr_vec@[rank(
            self.ptr_bits(),
            child_pos(S::spec_stride_len(), nibble),
            ptr_width(S::spec_stride_len()),
        )]
    }

    /// No prefix and no child.
    pub open spec fn is_empty(self) -> bool {
        &&& self.pfx_bits() == Set::<nat>::empty()
        &&& self.ptr_bits() == Set::<nat>::empty()
        &&& self.pfx_vec@.len() == 0
        &&& self.ptr_vec@.len() == 0
    }

    /// The entries of the prefixes stored here that end with one of the first
    /// `upto` nibbles of `net` after `start`, nibble lengths 1 to `upto`, shortest first.
    pub open spec fn matches_upto(self, net: nat, start: nat, upto: nat) -> Seq<(AF, u32)>
        decreases upto,
    {
        if upto == 0 {
            Seq::empty()
        } else {
            let rest = self.matches_upto(net, start, (upto - 1) as nat);
            let nibble = nibble_bits(net, AF::spec_bits(), start, upto);
            if self.has_prefix(nibble, upto) {
                rest.push(self.prefix_entry(nibble, upto))
            } else {
                rest
            }
        }
    }

    /// The last of `matches_upto`, if there is one.
    pub open spec fn last_match_upto(self, net: nat, start: nat, upto: nat) -> Option<(AF, u32)>
        decreases upto,
    {
        if upto == 0 {
            None
        } else {
            let nibble = nibble_bits(net, AF::spec_bits(), start, upto);
            if self.has_prefix(nibble, upto) {
                Some(self.prefix_entry(nibble, upto))
            } else {
                self.last_match_upto(net, start, (upto - 1) as nat)
            }
        }
    }

    /// An empty node is coherent.
    pub proof fn lemma_empty_coherent(self)
        requires
            self.is_empty(),
        ensures
            self.coherent(),
    {
        lemma_count_none(self.pfx_bits(), 0, pfx_width(S::spec_stride_len()));
        lemma_count_none(self.ptr_bits(), 0, ptr_width(S::spec_stride_len()));
    }

    /// A node without prefixes and children.
    pub fn new() -> (r: Self)
        ensures
            r.is_empty(),
            r.coherent(),
    {
        let r = TreeBitMapNode {
            ptrbitarr: S::into_ptrbitarr_size(S::zero()),
            pfxbitarr: S::zero(),
            pfx_vec: Vec::new(),
            ptr_vec: Vec::new(),
        };
        proof {
            assert(r.ptr_bits() =~= Set::<nat>::empty());
            r.lemma_empty_coherent();
        }
        r
    }

    /// The entry of the slot `(nibble, len)`, if the slot is taken.
    pub fn prefix_at(&self, nibble: u32, len: u8) -> (r: Option<(AF, u32)>)
        requires
            self.coherent(),
            valid_slot(S::spec_stride_len(), nibble as nat, len as nat),
        ensures
            r == if self.has_prefix(nibble as nat, len as nat) {
                Some(self.prefix_entry(nibble as nat, len as nat))
            } else {
                None
            },
    {
        match S::get_pfx_index(self.pfxbitarr, nibble, len) {
            Ok(i) => {
                proof {
                    S::lemma_stride_len();
                    lemma_slot_pos(S::spec_stride_len(), nibble as nat, len as nat);
                    lemma_rank_in_range(
                        self.pfx_bits(),
                        slot_pos(S::spec_stride_len(), nibble as nat, len as nat),
                        pfx_width(S::spec_stride_len()),
                    );
                }
                Some(self.pfx_vec[i])
            },
            Err(_) => None,
        }
    }

    /// The arena index of the child for the full nibble `nibble`, if there is one.
    pub fn child_at(&self, nibble: u32) -> (r: Option<u32>)
        requires
            self.coherent(),
            nibble < ptr_width(S::spec_stride_len()),
        ensures
            r == if self.has_child(nibble as nat) {
                Some(self.child_entry(nibble as nat).1)
            } else {
                None
            },
    {
        match S::get_ptr_index(self.ptrbitarr, nibble) {
            Ok(i) => {
                proof {
                    S::lemma_stride_len();
                    lemma_slot_pos(S::spec_stride_len(), nibble as nat, S::spec_stride_len());
                    lemma_rank_in_range(
                        self.ptr_bits(),
                        child_pos(S::spec_stride_len(), nibble as nat),
                        ptr_width(S::spec_stride_len()),
                    );
                }
                Some(self.ptr_vec[i].1)
            },
            Err(_) => None,
        }
    }

    /// Stores the entry `(net, index)` in the free slot `(nibble, len)`: sets the
    /// slot's bit and puts the entry where `get_pfx_index` will find it.
    pub fn insert_prefix(&mut self, nibble: u32, len: u8, net: AF, index: u32)
        requires
            old(self).coherent(),
            valid_slot(S::spec_stride_len(), nibble as nat, len as nat),
            !old(self).has_prefix(nibble as nat, len as nat),
        ensures
            final(self).coherent(),
            final(self).ptrbitarr == old(self).ptrbitarr,
            final(self).ptr_vec == old(self).ptr_vec,
            final(self).pfx_bits() == old(self).pfx_bits().insert(
                slot_pos(S::spec_stride_len(), nibble as nat, len as nat),
            ),
            final(self).pfx_vec@.len() == old(self).pfx_vec@.len() + 1,
            final(self).has_prefix(nibble as nat, len as nat),
            final(self).prefix_entry(nibble as nat, len as nat) == (net, index),
            forall|n: nat, l: nat|
                valid_slot(S::spec_stride_len(), n, l) && !(n == nibble && l == len) ==> (#[trigger] final(self).has_prefix(n, l) <==> old(self).has_prefix(n, l)),
            forall|n: nat, l: nat|
                valid_slot(S::spec_stride_len(), n, l) && old(self).has_prefix(n, l) ==> #[trigger] final(self).prefix_entry(n, l) == old(self).prefix_entry(n, l),
    {
        let ghost s = S::spec_stride_len();
        let ghost w = pfx_width(s);
        let ghost p = slot_pos(s, nibble as nat, len as nat);
        let ghost old_bits = self.pfx_bits();
        let ghost old_vec = self.pfx_vec@;
        proof {
            S::lemma_stride_len();
            lemma_slot_pos(s, nibble as nat, len as nat);
        }
        let bit_pos = S::get_bit_pos(nibble, len);
        self.pfxbitarr = S::bitor(bit_pos, self.pfxbitarr);
        proof {
            assert(self.pfx_bits() =~= old_bits.insert(p));
            lemma_count_insert(old_bits, p, 0, w);
            lemma_count_insert(old_bits, p, p, w);
            crate::bitset::lemma_count_split(old_bits, 0, p, w);
        }
        match S::get_pfx_index(self.pfxbitarr, nibble, len) {
            Ok(i) => {
                self.pfx_vec.insert(i, (net, index));
            },
            Err(_) => {},
        }
        proof {
            let new_bits = self.pfx_bits();
            assert forall|n: nat, l: nat| valid_slot(s, n, l) && !(n == nibble && l == len) implies (
            #[trigger] self.has_prefix(n, l) <==> old(self).has_prefix(n, l)) by {
                if slot_pos(s, n, l) == p {
                    lemma_slot_pos(s, n, l);
                    lemma_slot_id_injective(n, l, nibble as nat, len as nat);
                }
            }
            assert forall|n: nat, l: nat| valid_slot(s, n, l) && old(self).has_prefix(n, l) implies #[trigger] self.prefix_entry(
                n,
                l,
            ) == old(self).prefix_entry(n, l) by {
                let q = slot_pos(s, n, l);
                lemma_slot_pos(s, n, l);
                lemma_rank_insert(old_bits, p, q, w);
                lemma_rank_in_range(old_bits, q, w);
            }
        }
    }

    /// Links the child with arena index `index` under the full nibble `nibble`:
    /// sets the child's bit and puts the entry where `get_ptr_index` will find it.
    pub fn insert_child(&mut self, nibble: u32, bit_id: u16, index: u32)
        requires
            old(self).coherent(),
            nibble < ptr_width(S::spec_stride_len()),
            !old(self).has_child(nibble as nat),
        ensures
            final(self).coherent(),
            final(self).pfxbitarr == old(self).pfxbitarr,
            final(self).pfx_vec == old(self).pfx_vec,
            final(self).ptr_bits() == old(self).ptr_bits().insert(child_pos(S::spec_stride_len(), nibble as nat)),
            final(self).ptr_vec@.len() == old(self).ptr_vec@.len() + 1,
            final(self).has_child(nibble as nat),
            final(self).child_entry(nibble as nat) == (bit_id, index),
            forall|n: nat|
                n < ptr_width(S::spec_stride_len()) && n != nibble ==> (#[trigger] final(self).has_child(n)
                    <==> old(self).has_child(n)),
            forall|n: nat|
                n < ptr_width(S::spec_stride_len()) && old(self).has_child(n) ==> #[trigger] final(self).child_entry(n) == old(self).child_entry(n),
    {
        let ghost s = S::spec_stride_len();
        let ghost w = ptr_width(s);
        let ghost p = child_pos(s, nibble as nat);
        let ghost old_bits = self.ptr_bits();
        proof {
            S::lemma_stride_len();
            lemma_slot_pos(s, nibble as nat, s);
            S::lemma_ptr_bits_below(self.ptrbitarr);
        }
        let bit_pos = S::get_bit_pos(nibble, S::stride_len());
        let lifted = S::into_stride_size(self.ptrbitarr);
        let wide = S::bitor(bit_pos, lifted);
        self.ptrbitarr = S::into_ptrbitarr_size(wide);
        proof {
            assert forall|i: nat| self.ptr_bits().contains(i) <==> old_bits.insert(p).contains(i) by {
                assert(wide.bits().contains(i + 1) <==> (i + 1 == p + 1 || lifted.bits().contains(i + 1)));
            }
            assert(self.ptr_bits() =~= old_bits.insert(p));
            lemma_count_insert(old_bits, p, 0, w);
            lemma_count_insert(old_bits, p, p, w);
            crate::bitset::lemma_count_split(old_bits, 0, p, w);
        }
        match S::get_ptr_index(self.ptrbitarr, nibble) {
            Ok(i) => {
                self.ptr_vec.insert(i, (bit_id, index));
            },
            Err(_) => {},
        }
        proof {
            assert forall|n: nat| n < w && old(self).has_child(n) implies #[trigger] self.child_entry(n) == old(self).child_entry(n) by {
                let q = child_pos(s, n);
                lemma_rank_insert(old_bits, p, q, w);
                lemma_rank_in_range(old_bits, q, w);
            }
        }
    }

    /// Looks at the slot that an insert arrives at in this node and says what
    /// the insert has to do there. On the last stride of the prefix this is the
    /// prefix slot `(nibble, nibble_len)`; before it, the child of the full nibble.
    pub fn eval_node_or_prefix_at(
        &self,
        nibble: u32,
        nibble_len: u8,
        next_stride: Option<&u8>,
        is_last_stride: bool,
    ) -> (r: NewNodeOrIndex<AF>)
        requires
            self.coherent(),
            valid_slot(S::spec_stride_len(), nibble as nat, nibble_len as nat),
            !is_last_stride ==> nibble_len == S::spec_stride_len() && next_stride.is_some() && 3
                <= *next_stride.unwrap() <= 8,
        ensures
            is_last_stride && self.has_prefix(nibble as nat, nibble_len as nat) ==> r
                == NewNodeOrIndex::<AF>::ExistingPrefix,
            is_last_stride && !self.has_prefix(nibble as nat, nibble_len as nat) ==> r
                == NewNodeOrIndex::<AF>::NewPrefix,
            !is_last_stride && self.has_child(nibble as nat) ==> r == NewNodeOrIndex::<AF>::ExistingNode(
                self.child_entry(nibble as nat).1,
            ),
            !is_last_stride && !self.has_child(nibble as nat) ==> match r {
                NewNodeOrIndex::NewNode(node, bit_id) => node.is_empty() && node.coherent() && node.stride_len()
                    == *next_stride.unwrap() && bit_id == slot_id(nibble as nat, S::spec_stride_len()),
                _ => false,
            },
    {
        let ghost s = S::spec_stride_len();
        proof {
            S::lemma_stride_len();
            lemma_slot_pos(s, nibble as nat, nibble_len as nat);
            lemma2_to64();
        }
        let bit_pos = S::get_bit_pos(nibble, nibble_len);
        if is_last_stride {
            let hit = S::bitand(self.pfxbitarr, bit_pos);
            proof {
                let p = slot_pos(s, nibble as nat, nibble_len as nat);
                assert(hit.bits().contains(p) <==> self.pfx_bits().contains(p));
                if !self.pfx_bits().contains(p) {
                    assert(hit.bits() =~= Set::<nat>::empty());
                }
            }
            if hit.is_zero() {
                NewNodeOrIndex::NewPrefix
            } else {
                NewNodeOrIndex::ExistingPrefix
            }
        } else {
            match self.child_at(nibble) {
                Some(index) => NewNodeOrIndex::ExistingNode(index),
                None => {
                    let zeros = bit_pos.leading_zeros();
                    proof {
                        let p = slot_pos(s, nibble as nat, nibble_len as nat);
                        assert(bit_pos.bits().contains(p));
                        assert(zeros < pfx_width(s));
                        assert(bit_pos.bits().contains((pfx_width(s) - 1 - zeros) as nat));
                    }
                    NewNodeOrIndex::NewNode(SizedStrideNode::empty(*next_stride.unwrap()), zeros as u16)
                },
            }
        }
    }

    /// The arena index of the child to descend to from this node, if the
    /// query reaches beyond this stride and the child exists.
    pub fn next_node(&self, search_pfx: &Prefix<AF, NoMeta>, nibble: u32, nibble_len: u8, start_bit: u8) -> (r:
        Option<u32>)
        requires
            self.coherent(),
            valid_slot(S::spec_stride_len(), nibble as nat, nibble_len as nat),
            start_bit + nibble_len <= 255,
        ensures
            r == if self.descends(search_pfx.len as nat, nibble as nat, nibble_len as nat, start_bit as nat) {
                Some(self.child_entry(nibble as nat).1)
            } else {
                None
            },
    {
        if search_pfx.len < start_bit + nibble_len || nibble_len < S::stride_len() {
            None
        } else {
            self.child_at(nibble)
        }
    }

    /// The search goes on below this node: the query is at least as long as
    /// the bits consumed so far, the nibble is a full one, and its child exists.
    pub open spec fn descends(self, query_len: nat, nibble: nat, nibble_len: nat, start: nat) -> bool {
        query_len >= start + nibble_len && nibble_len == S::spec_stride_len() && self.has_child(nibble)
    }

    /// Collects into `found_pfx` the entries of all prefixes stored in this node
    /// that match the query, shortest first, and returns the child to go on with.
    pub fn search_stride_at(
        &self,
        search_pfx: &Prefix<AF, NoMeta>,
        nibble: u32,
        nibble_len: u8,
        start_bit: u8,
        found_pfx: &mut Vec<(AF, u32)>,
    ) -> (r: Option<u32>)
        requires
            self.coherent(),
            nibble_len <= S::spec_stride_len(),
            start_bit + nibble_len <= AF::spec_bits(),
            nibble == nibble_bits(search_pfx.net.value(), AF::spec_bits(), start_bit as nat, nibble_len as nat),
        ensures
            final(found_pfx)@ == old(found_pfx)@ + self.matches_upto(
                search_pfx.net.value(),
                start_bit as nat,
                nibble_len as nat,
            ),
            r == if self.descends(search_pfx.len as nat, nibble as nat, nibble_len as nat, start_bit as nat) {
                Some(self.child_entry(nibble as nat).1)
            } else {
                None
            },
    {
        let ghost net = search_pfx.net.value();
        proof {
            S::lemma_stride_len();
            search_pfx.net.lemma_family();
            crate::lpm::lemma_prefix_bits_split(net, AF::spec_bits(), start_bit as nat, nibble_len as nat);
        }
        let mut n_l: u8 = 1;
        while n_l <= nibble_len
            invariant
                1 <= n_l <= nibble_len + 1,
                nibble_len <= S::spec_stride_len() <= 8,
                start_bit + nibble_len <= AF::spec_bits() <= 128,
                self.coherent(),
                net == search_pfx.net.value(),
                found_pfx@ == old(found_pfx)@ + self.matches_upto(net, start_bit as nat, (n_l - 1) as nat),
            decreases nibble_len + 1 - n_l,
        {
            let n = AF::get_nibble(search_pfx.net, start_bit, n_l);
            proof {
                crate::lpm::lemma_prefix_bits_split(net, AF::spec_bits(), start_bit as nat, n_l as nat);
            }
            let ghost before = found_pfx@;
            match self.prefix_at(n, n_l) {
                Some(entry) => {
                    found_pfx.push(entry);
                    proof {
                        assert(found_pfx@ =~= old(found_pfx)@ + self.matches_upto(
                            net,
                            start_bit as nat,
                            n_l as nat,
                        ));
                    }
                },
                None => {},
            }
            n_l += 1;
        }
        self.next_node(search_pfx, nibble, nibble_len, start_bit)
    }

    /// The entry of the longest prefix stored in this node that matches the
    /// query, and the child to go on with.
    pub fn search_stride_at_lmp_only(
        &self,
        search_pfx: &Prefix<AF, NoMeta>,
        nibble: u32,
        nibble_len: u8,
        start_bit: u8,
    ) -> (r: (Option<u32>, Option<(AF, u32)>))
        requires
            self.coherent(),
            nibble_len <= S::spec_stride_len(),
            start_bit + nibble_len <= AF::spec_bits(),
            nibble == nibble_bits(search_pfx.net.value(), AF::spec_bits(), start_bit as nat, nibble_len as nat),
        ensures
            r.1 == self.last_match_upto(search_pfx.net.value(), start_bit as nat, nibble_len as nat),
            r.0 == if self.descends(search_pfx.len as nat, nibble as nat, nibble_len as nat, start_bit as nat) {
                Some(self.child_entry(nibble as nat).1)
            } else {
                None
            },
    {
        let ghost net = search_pfx.net.value();
        proof {
            S::lemma_stride_len();
            search_pfx.net.lemma_family();
            crate::lpm::lemma_prefix_bits_split(net, AF::spec_bits(), start_bit as nat, nibble_len as nat);
        }
        let mut found_pfx: Option<(AF, u32)> = None;
        let mut n_l: u8 = 1;
        while n_l <= nibble_len
            invariant
                1 <= n_l <= nibble_len + 1,
                nibble_len <= S::spec_stride_len() <= 8,
                start_bit + nibble_len <= AF::spec_bits() <= 128,
                self.coherent(),
                net == search_pfx.net.value(),
                found_pfx == self.last_match_upto(net, start_bit as nat, (n_l - 1) as nat),
            decreases nibble_len + 1 - n_l,
        {
            let n = AF::get_nibble(search_pfx.net, start_bit, n_l);
            proof {
                crate::lpm::lemma_prefix_bits_split(net, AF::spec_bits(), start_bit as nat, n_l as nat);
            }
            match self.prefix_at(n, n_l) {
                Some(entry) => {
                    found_pfx = Some(entry);
                },
                None => {},
            }
            n_l += 1;
        }
        (self.next_node(search_pfx, nibble, nibble_len, start_bit), found_pfx)
    }
}

pub type Stride3 = u16;

pub type Stride4 = u32;

pub type Stride5 = u64;

pub type Stride6 = u128;

pub type Stride7 = U256;

pub type Stride8 = U512;

/// A node of any of the six stride widths.
pub enum SizedStrideNode<AF: AddressFamily> {
    Stride3(TreeBitMapNode<AF, Stride3>),
    Stride4(TreeBitMapNode<AF, Stride4>),
    Stride5(TreeBitMapNode<AF, Stride5>),
    Stride6(TreeBitMapNode<AF, Stride6>),
    Stride7(TreeBitMapNode<AF, Stride7>),
    Stride8(TreeBitMapNode<AF, Stride8>),
}

/// What an insert finds at a node.
pub enum NewNodeOrIndex<AF: AddressFamily> {
    /// No child yet: the empty node to store, and the slot number of the child.
    NewNode(SizedStrideNode<AF>, u16),
    /// The arena index of the child.
    ExistingNode(u32),
    /// The prefix slot is free.
    NewPrefix,
    /// The prefix slot is taken.
    ExistingPrefix,
}

impl<AF: AddressFamily> SizedStrideNode<AF> {
    /// Number of address bits that the node consumes.
    pub open spec fn stride_len(self) -> nat {
        match self {
            SizedStrideNode::Stride3(_) => 3,
            SizedStrideNode::Stride4(_) => 4,
            SizedStrideNode::Stride5(_) => 5,
            SizedStrideNode::Stride6(_) => 6,
            SizedStrideNode::Stride7(_) => 7,
            SizedStrideNode::Stride8(_) => 8,
        }
    }

    /// The positions at which the prefix bitmap holds a one.
    pub open spec fn pfx_bits(self) -> Set<nat> {
        match self {
            SizedStrideNode::Stride3(node) => node.pfx_bits(),
            SizedStrideNode::Stride4(node) => node.pfx_bits(),
            SizedStrideNode::Stride5(node) => node.pfx_bits(),
            SizedStrideNode::Stride6(node) => node.pfx_bits(),
            SizedStrideNode::Stride7(node) => node.pfx_bits(),
            SizedStrideNode::Stride8(node) => node.pfx_bits(),
        }
    }

    /// The positions at which the pointer bitmap holds a one.
    pub open spec fn ptr_bits(self) -> Set<nat> {
        match self {
            SizedStrideNode::Stride3(node) => node.ptr_bits(),
            SizedStrideNode::Stride4(node) => node.ptr_bits(),
            SizedStrideNode::Stride5(node) => node.ptr_bits(),
            SizedStrideNode::Stride6(node) => node.ptr_bits(),
            SizedStrideNode::Stride7(node) => node.ptr_bits(),
            SizedStrideNode::Stride8(node) => node.ptr_bits(),
        }
    }

    /// The prefix vector.
    pub open spec fn pfx_vec(self) -> Seq<(AF, u32)> {
        match self {
            SizedStrideNode::Stride3(node) => node.pfx_vec@,
            SizedStrideNode::Stride4(node) => node.pfx_vec@,
            SizedStrideNode::Stride5(node) => node.pfx_vec@,
            SizedStrideNode::Stride6(node) => node.pfx_vec@,
            SizedStrideNode::Stride7(node) => node.pfx_vec@,
            SizedStrideNode::Stride8(node) => node.pfx_vec@,
        }
    }

    /// The pointer vector.
    pub open spec fn ptr_vec(self) -> Seq<(u16, u32)> {
        match self {
            SizedStrideNode::Stride3(node) => node.ptr_vec@,
            SizedStrideNode::Stride4(node) => node.ptr_vec@,
            SizedStrideNode::Stride5(node) => node.ptr_vec@,
            SizedStrideNode::Stride6(node) => node.ptr_vec@,
            SizedStrideNode::Stride7(node) => node.ptr_vec@,
            SizedStrideNode::Stride8(node) => node.ptr_vec@,
        }
    }

    /// Each vector of the node is as long as its bitmap has ones.
    pub open spec fn coherent(self) -> bool {
        match self {
            SizedStrideNode::Stride3(node) => node.coherent(),
            SizedStrideNode::Stride4(node) => node.coherent(),
            SizedStrideNode::Stride5(node) => node.coherent(),
            SizedStrideNode::Stride6(node) => node.coherent(),
            SizedStrideNode::Stride7(node) => node.coherent(),
            SizedStrideNode::Stride8(node) => node.coherent(),
        }
    }

    /// No prefix and no child.
    pub open spec fn is_empty(self) -> bool {
        match self {
            SizedStrideNode::Stride3(node) => node.is_empty(),
            SizedStrideNode::Stride4(node) => node.is_empty(),
            SizedStrideNode::Stride5(node) => node.is_empty(),
            SizedStrideNode::Stride6(node) => node.is_empty(),
            SizedStrideNode::Stride7(node) => node.is_empty(),
            SizedStrideNode::Stride8(node) => node.is_empty(),
        }
    }

    /// The node stores a prefix that ends with the nibble `(nibble, len)`.
    pub open spec fn has_prefix(self, nibble: nat, len: nat) -> bool {
        match self {
            SizedStrideNode::Stride3(node) => node.has_prefix(nibble, len),
            SizedStrideNode::Stride4(node) => node.has_prefix(nibble, len),
            SizedStrideNode::Stride5(node) => node.has_prefix(nibble, len),
            SizedStrideNode::Stride6(node) => node.has_prefix(nibble, len),
            SizedStrideNode::Stride7(node) => node.has_prefix(nibble, len),
            SizedStrideNode::Stride8(node) => node.has_prefix(nibble, len),
        }
    }

    /// The entry of the slot `(nibble, len)`.
    pub open spec fn prefix_entry(self, nibble: nat, len: nat) -> (AF, u32) {
        match self {
            SizedStrideNode::Stride3(node) => node.prefix_entry(nibble, len),
            SizedStrideNode::Stride4(node) => node.prefix_entry(nibble, len),
            SizedStrideNode::Stride5(node) => node.prefix_entry(nibble, len),
            SizedStrideNode::Stride6(node) => node.prefix_entry(nibble, len),
            SizedStrideNode::Stride7(node) => node.prefix_entry(nibble, len),
            SizedStrideNode::Stride8(node) => node.prefix_entry(nibble, len),
        }
    }

    /// The node has a child for the full nibble `nibble`.
    pub open spec fn has_child(self, nibble: nat) -> bool {
        match self {
            SizedStrideNode::Stride3(node) => node.has_child(nibble),
            SizedStrideNode::Stride4(node) => node.has_child(nibble),
            SizedStrideNode::Stride5(node) => node.has_child(nibble),
            SizedStrideNode::Stride6(node) => node.has_child(nibble),
            SizedStrideNode::Stride7(node) => node.has_child(nibble),
            SizedStrideNode::Stride8(node) => node.has_child(nibble),
        }
    }

    /// The entry of the child for the full nibble `nibble`.
    pub open spec fn child_entry(self, nibble: nat) -> (u16, u32) {
        match self {
            SizedStrideNode::Stride3(node) => node.child_entry(nibble),
            SizedStrideNode::Stride4(node) => node.child_entry(nibble),
            SizedStrideNode::Stride5(node) => node.child_entry(nibble),
            SizedStrideNode::Stride6(node) => node.child_entry(nibble),
            SizedStrideNode::Stride7(node) => node.child_entry(nibble),
            SizedStrideNode::Stride8(node) => node.child_entry(nibble),
        }
    }

    /// The entries of the stored prefixes that match `net` from `start`, nibble lengths 1 to `upto`.
    pub open spec fn matches_upto(self, net: nat, start: nat, upto: nat) -> Seq<(AF, u32)> {
        match self {
            SizedStrideNode::Stride3(node) => node.matches_upto(net, start, upto),
            SizedStrideNode::Stride4(node) => node.matches_upto(net, start, upto),
            SizedStrideNode::Stride5(node) => node.matches_upto(net, start, upto),
            SizedStrideNode::Stride6(node) => node.matches_upto(net, start, upto),
            SizedStrideNode::Stride7(node) => node.matches_upto(net, start, upto),
            SizedStrideNode::Stride8(node) => node.matches_upto(net, start, upto),
        }
    }

    /// The last of `matches_upto`, if there is one.
    pub open spec fn last_match_upto(self, net: nat, start: nat, upto: nat) -> Option<(AF, u32)> {
        match self {
            SizedStrideNode::Stride3(node) => node.last_match_upto(net, start, upto),
            SizedStrideNode::Stride4(node) => node.last_match_upto(net, start, upto),
            SizedStrideNode::Stride5(node) => node.last_match_upto(net, start, upto),
            SizedStrideNode::Stride6(node) => node.last_match_upto(net, start, upto),
            SizedStrideNode::Stride7(node) => node.last_match_upto(net, start, upto),
            SizedStrideNode::Stride8(node) => node.last_match_upto(net, start, upto),
        }
    }

    /// The search goes on below this node.
    pub open spec fn descends(self, query_len: nat, nibble: nat, nibble_len: nat, start: nat) -> bool {
        match self {
            SizedStrideNode::Stride3(node) => node.descends(query_len, nibble, nibble_len, start),
            SizedStrideNode::Stride4(node) => node.descends(query_len, nibble, nibble_len, start),
            SizedStrideNode::Stride5(node) => node.descends(query_len, nibble, nibble_len, start),
            SizedStrideNode::Stride6(node) => node.descends(query_len, nibble, nibble_len, start),
            SizedStrideNode::Stride7(node) => node.descends(query_len, nibble, nibble_len, start),
            SizedStrideNode::Stride8(node) => node.descends(query_len, nibble, nibble_len, start),
        }
    }

    /// `self` is `before` with the entry `entry` added in the slot `(nibble, len)`
    /// that was free, and nothing else changed.
    pub open spec fn adds_prefix(self, before: Self, nibble: nat, len: nat, entry: (AF, u32)) -> bool {
        &&& self.coherent()
        &&& self.stride_len() == before.stride_len()
        &&& self.has_prefix(nibble, len)
        &&& self.prefix_entry(nibble, len) == entry
        &&& forall|n: nat, l: nat|
            valid_slot(before.stride_len(), n, l) && !(n == nibble && l == len) ==> (#[trigger] self.has_prefix(n, l)
                <==> before.has_prefix(n, l))
        &&& forall|n: nat, l: nat|
            valid_slot(before.stride_len(), n, l) && before.has_prefix(n, l) ==> #[trigger] self.prefix_entry(n, l)
                == before.prefix_entry(n, l)
        &&& forall|n: nat| #[trigger] self.has_child(n) <==> before.has_child(n)
        &&& forall|n: nat| #[trigger] self.child_entry(n) == before.child_entry(n)
    }

    /// `self` is `before` with the entry `entry` added for the child of the full
    /// nibble `nibble` that was missing, and nothing else changed.
    pub open spec fn adds_child(self, before: Self, nibble: nat, entry: (u16, u32)) -> bool {
        &&& self.coherent()
        &&& self.stride_len() == before.stride_len()
        &&& self.has_child(nibble)
        &&& self.child_entry(nibble) == entry
        &&& forall|n: nat|
            n < ptr_width(before.stride_len()) && n != nibble ==> (#[trigger] self.has_child(n) <==> before.has_child(n))
        &&& forall|n: nat|
            n < ptr_width(before.stride_len()) && before.has_child(n) ==> #[trigger] self.child_entry(n)
                == before.child_entry(n)
        &&& forall|n: nat, l: nat| #[trigger] self.has_prefix(n, l) <==> before.has_prefix(n, l)
        &&& forall|n: nat, l: nat| #[trigger] self.prefix_entry(n, l) == before.prefix_entry(n, l)
    }

    /// An empty node for a stride of `stride` bits.
    pub fn empty(stride: u8) -> (r: Self)
        requires
            3 <= stride <= 8,
        ensures
            r.is_empty(),
            r.coherent(),
            r.stride_len() == stride,
    {
        if stride == 3 {
            SizedStrideNode::Stride3(TreeBitMapNode::new())
        } else if stride == 4 {
            SizedStrideNode::Stride4(TreeBitMapNode::new())
        } else if stride == 5 {
            SizedStrideNode::Stride5(TreeBitMapNode::new())
        } else if stride == 6 {
            SizedStrideNode::Stride6(TreeBitMapNode::new())
        } else if stride == 7 {
            SizedStrideNode::Stride7(TreeBitMapNode::new())
        } else {
            SizedStrideNode::Stride8(TreeBitMapNode::new())
        }
    }

    /// Number of address bits that the node consumes.
    pub fn stride(&self) -> (r: u8)
        ensures
            r == self.stride_len(),
            3 <= r <= 8,
    {
        match self {
            SizedStrideNode::Stride3(_) => 3,
            SizedStrideNode::Stride4(_) => 4,
            SizedStrideNode::Stride5(_) => 5,
            SizedStrideNode::Stride6(_) => 6,
            SizedStrideNode::Stride7(_) => 7,
            SizedStrideNode::Stride8(_) => 8,
        }
    }

    /// What an insert that arrives at this node with `(nibble, nibble_len)` has to do.
    pub fn eval_node_or_prefix_at(
        &self,
        nibble: u32,
        nibble_len: u8,
        next_stride: Option<&u8>,
        is_last_stride: bool,
    ) -> (r: NewNodeOrIndex<AF>)
        requires
            self.coherent(),
            valid_slot(self.stride_len(), nibble as nat, nibble_len as nat),
            !is_last_stride ==> nibble_len == self.stride_len() && next_stride.is_some() && 3
                <= *next_stride.unwrap() <= 8,
        ensures
            is_last_stride && self.has_prefix(nibble as nat, nibble_len as nat) ==> r
                == NewNodeOrIndex::<AF>::ExistingPrefix,
            is_last_stride && !self.has_prefix(nibble as nat, nibble_len as nat) ==> r
                == NewNodeOrIndex::<AF>::NewPrefix,
            !is_last_stride && self.has_child(nibble as nat) ==> r == NewNodeOrIndex::<AF>::ExistingNode(
                self.child_entry(nibble as nat).1,
            ),
            !is_last_stride && !self.has_child(nibble as nat) ==> match r {
                NewNodeOrIndex::NewNode(node, bit_id) => node.is_empty() && node.coherent() && node.stride_len()
                    == *next_stride.unwrap() && bit_id == slot_id(nibble as nat, self.stride_len()),
                _ => false,
            },
    {
        match self {
            SizedStrideNode::Stride3(node) => node.eval_node_or_prefix_at(nibble, nibble_len, next_stride, is_last_stride),
            SizedStrideNode::Stride4(node) => node.eval_node_or_prefix_at(nibble, nibble_len, next_stride, is_last_stride),
            SizedStrideNode::Stride5(node) => node.eval_node_or_prefix_at(nibble, nibble_len, next_stride, is_last_stride),
            SizedStrideNode::Stride6(node) => node.eval_node_or_prefix_at(nibble, nibble_len, next_stride, is_last_stride),
            SizedStrideNode::Stride7(node) => node.eval_node_or_prefix_at(nibble, nibble_len, next_stride, is_last_stride),
            SizedStrideNode::Stride8(node) => node.eval_node_or_prefix_at(nibble, nibble_len, next_stride, is_last_stride),
        }
    }

    /// The entry of the slot `(nibble, len)`, if the slot is taken.
    pub fn prefix_at(&self, nibble: u32, len: u8) -> (r: Option<(AF, u32)>)
        requires
            self.coherent(),
            valid_slot(self.stride_len(), nibble as nat, len as nat),
        ensures
            r == if self.has_prefix(nibble as nat, len as nat) {
                Some(self.prefix_entry(nibble as nat, len as nat))
            } else {
                None
            },
    {
        match self {
            SizedStrideNode::Stride3(node) => node.prefix_at(nibble, len),
            SizedStrideNode::Stride4(node) => node.prefix_at(nibble, len),
            SizedStrideNode::Stride5(node) => node.prefix_at(nibble, len),
            SizedStrideNode::Stride6(node) => node.prefix_at(nibble, len),
            SizedStrideNode::Stride7(node) => node.prefix_at(nibble, len),
            SizedStrideNode::Stride8(node) => node.prefix_at(nibble, len),
        }
    }

    /// Collects into `found_pfx` the entries of all prefixes stored in this node
    /// that match the query, shortest first, and returns the child to go on with.
    pub fn search_stride_at(
        &self,
        search_pfx: &Prefix<AF, NoMeta>,
        nibble: u32,
        nibble_len: u8,
        start_bit: u8,
        found_pfx: &mut Vec<(AF, u32)>,
    ) -> (r: Option<u32>)
        requires
            self.coherent(),
            nibble_len <= self.stride_len(),
            start_bit + nibble_len <= AF::spec_bits(),
            nibble == nibble_bits(search_pfx.net.value(), AF::spec_bits(), start_bit as nat, nibble_len as nat),
        ensures
            final(found_pfx)@ == old(found_pfx)@ + self.matches_upto(
                search_pfx.net.value(),
                start_bit as nat,
                nibble_len as nat,
            ),
            r == if self.descends(search_pfx.len as nat, nibble as nat, nibble_len as nat, start_bit as nat) {
                Some(self.child_entry(nibble as nat).1)
            } else {
                None
            },
    {
        match self {
            SizedStrideNode::Stride3(node) => node.search_stride_at(search_pfx, nibble, nibble_len, start_bit, found_pfx),
            SizedStrideNode::Stride4(node) => node.search_stride_at(search_pfx, nibble, nibble_len, start_bit, found_pfx),
            SizedStrideNode::Stride5(node) => node.search_stride_at(search_pfx, nibble, nibble_len, start_bit, found_pfx),
            SizedStrideNode::Stride6(node) => node.search_stride_at(search_pfx, nibble, nibble_len, start_bit, found_pfx),
            SizedStrideNode::Stride7(node) => node.search_stride_at(search_pfx, nibble, nibble_len, start_bit, found_pfx),
            SizedStrideNode::Stride8(node) => node.search_stride_at(search_pfx, nibble, nibble_len, start_bit, found_pfx),
        }
    }

    /// The entry of the longest prefix stored in this node that matches the
    /// query, and the child to go on with.
    pub fn search_stride_at_lmp_only(
        &self,
        search_pfx: &Prefix<AF, NoMeta>,
        nibble: u32,
        nibble_len: u8,
        start_bit: u8,
    ) -> (r: (Option<u32>, Option<(AF, u32)>))
        requires
            self.coherent(),
            nibble_len <= self.stride_len(),
            start_bit + nibble_len <= AF::spec_bits(),
            nibble == nibble_bits(search_pfx.net.value(), AF::spec_bits(), start_bit as nat, nibble_len as nat),
        ensures
            r.1 == self.last_match_upto(search_pfx.net.value(), start_bit as nat, nibble_len as nat),
            r.0 == if self.descends(search_pfx.len as nat, nibble as nat, nibble_len as nat, start_bit as nat) {
                Some(self.child_entry(nibble as nat).1)
            } else {
                None
            },
    {
        match self {
            SizedStrideNode::Stride3(node) => node.search_stride_at_lmp_only(search_pfx, nibble, nibble_len, start_bit),
            SizedStrideNode::Stride4(node) => node.search_stride_at_lmp_only(search_pfx, nibble, nibble_len, start_bit),
            SizedStrideNode::Stride5(node) => node.search_stride_at_lmp_only(search_pfx, nibble, nibble_len, start_bit),
            SizedStrideNode::Stride6(node) => node.search_stride_at_lmp_only(search_pfx, nibble, nibble_len, start_bit),
            SizedStrideNode::Stride7(node) => node.search_stride_at_lmp_only(search_pfx, nibble, nibble_len, start_bit),
            SizedStrideNode::Stride8(node) => node.search_stride_at_lmp_only(search_pfx, nibble, nibble_len, start_bit),
        }
    }

    /// Stores the entry `(net, index)` in the free slot `(nibble, len)`.
    pub fn insert_prefix(&mut self, nibble: u32, len: u8, net: AF, index: u32)
        requires
            old(self).coherent(),
            valid_slot(old(self).stride_len(), nibble as nat, len as nat),
            !old(self).has_prefix(nibble as nat, len as nat),
        ensures
            final(self).adds_prefix(*old(self), nibble as nat, len as nat, (net, index)),
    {
        match self {
            SizedStrideNode::Stride3(node) => node.insert_prefix(nibble, len, net, index),
            SizedStrideNode::Stride4(node) => node.insert_prefix(nibble, len, net, index),
            SizedStrideNode::Stride5(node) => node.insert_prefix(nibble, len, net, index),
            SizedStrideNode::Stride6(node) => node.insert_prefix(nibble, len, net, index),
            SizedStrideNode::Stride7(node) => node.insert_prefix(nibble, len, net, index),
            SizedStrideNode::Stride8(node) => node.insert_prefix(nibble, len, net, index),
        }
    }

    /// Links the child with arena index `index` under the full nibble `nibble`.
    pub fn insert_child(&mut self, nibble: u32, bit_id: u16, index: u32)
        requires
            old(self).coherent(),
            nibble < ptr_width(old(self).stride_len()),
            !old(self).has_child(nibble as nat),
        ensures
            final(self).adds_child(*old(self), nibble as nat, (bit_id, index)),
    {
        match self {
            SizedStrideNode::Stride3(node) => node.insert_child(nibble, bit_id, index),
            SizedStrideNode::Stride4(node) => node.insert_child(nibble, bit_id, index),
            SizedStrideNode::Stride5(node) => node.insert_child(nibble, bit_id, index),
            SizedStrideNode::Stride6(node) => node.insert_child(nibble, bit_id, index),
            SizedStrideNode::Stride7(node) => node.insert_child(nibble, bit_id, index),
            SizedStrideNode::Stride8(node) => node.insert_child(nibble, bit_id, index),
        }
    }
}

impl<AF: AddressFamily> Default for SizedStrideNode<AF> {
    fn default() -> (r: Self)
        ensures
            r.is_empty(),
            r.coherent(),
            r.stride_len() == 3,
    {
        SizedStrideNode::empty(3)
    }
}

} // verus!

