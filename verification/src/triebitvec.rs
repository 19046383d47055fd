//! A binary trie that is built and walked bit by bit, with the bits of an
//! address laid out in a bit-vector.

use vstd::prelude::*;
use crate::common::{NoMeta, Prefix};
use crate::nodes::BinaryNode2;
use crate::word::bit_set;

verus! {

/// A vector of bits: a `BitVec` of the crate bitvec that keeps its bits in
/// `u32` words, the most significant bit of a word first.
#[verifier::external_body]
pub struct Bits {
    inner: bitvec::vec::BitVec<u32, bitvec::order::Msb0>,
}

/// The bits that a bit-vector holds, the first one first.
pub uninterp spec fn bits_in(v: Bits) -> Seq<bool>;

/// The lowest `len` bits of `value`, the most significant of them first.
pub open spec fn low_bits_of(value: u32, len: nat) -> Seq<bool> {
    Seq::new(len, |i: int| bit_set(value as u128, (len - 1 - i) as nat))
}

impl Bits {
    /// Calls `BitVec::repeat` of the crate bitvec, which makes a bit-vector of
    /// `len` bits that are all `bit`, and panics for more bits than a
    /// bit-vector can hold.
    #[verifier::external_body]
    pub(crate) fn repeat(bit: bool, len: usize) -> (r: Bits)
        requires
            len <= usize::MAX / 8,
        ensures
            bits_in(r) == Seq::new(len as nat, |i: int| bit),
    {
        Bits { inner: bitvec::vec::BitVec::repeat(bit, len) }
    }

    /// Calls `BitVec::len` of the crate bitvec: the number of bits held.
    #[verifier::external_body]
    pub(crate) fn len(&self) -> (r: usize)
        ensures
            r == bits_in(*self).len(),
    {
        self.inner.len()
    }

    /// Reads bit `index` through the index operator of `BitVec`, which panics
    /// for an index that is not below the length.
    #[verifier::external_body]
    pub(crate) fn get(&self, index: usize) -> (r: bool)
        requires
            index < bits_in(*self).len(),
        ensures
            r == bits_in(*self)[index as int],
    {
        self.inner[index]
    }

    /// Calls `BitSlice::set` of the crate bitvec, which writes bit `index` and
    /// panics for an index that is not below the length.
    #[verifier::external_body]
    pub(crate) fn set(&mut self, index: usize, value: bool)
        requires
            index < bits_in(*old(self)).len(),
        ensures
            bits_in(*final(self)) == bits_in(*old(self)).update(index as int, value),
    {
        self.inner.set(index, value);
    }

    /// Calls `BitVec::resize` of the crate bitvec, which cuts the bit-vector
    /// down to `new_len` bits or fills it up to `new_len` bits with `value`, and
    /// panics for more bits than a bit-vector can hold.
    #[verifier::external_body]
    pub(crate) fn resize(&mut self, new_len: usize, value: bool)
        requires
            new_len <= usize::MAX / 8,
        ensures
            bits_in(*final(self)) == if new_len <= bits_in(*old(self)).len() {
                bits_in(*old(self)).subrange(0, new_len as int)
            } else {
                bits_in(*old(self)) + Seq::new((new_len - bits_in(*old(self)).len()) as nat, |i: int| value)
            },
    {
        self.inner.resize(new_len, value);
    }

    /// Calls `BitField::store` of the crate bitvec on a bit-vector of 1 to 32
    /// bits. These lie in one `u32` word, so that the byte order of the machine
    /// plays no part: the bit-vector then holds the lowest bits of `value`, as
    /// many as it is long, the most significant first. `store` panics on an
    /// empty bit-vector and on one of more than 32 bits.
    #[verifier::external_body]
    pub(crate) fn store(&mut self, value: u32)
        requires
            1 <= bits_in(*old(self)).len() <= 32,
        ensures
            bits_in(*final(self)) == low_bits_of(value, bits_in(*old(self)).len()),
    {
        bitvec::field::BitField::store(&mut self.inner, value);
    }

    /// Calls `BitField::load` of the crate bitvec on a bit-vector of 32 bits.
    /// These fill one `u32` word, so that the byte order of the machine plays
    /// no part: the result is that word, whose most significant bit is the
    /// first bit of the bit-vector.
    #[verifier::external_body]
    pub(crate) fn load(&self) -> (r: u32)
        requires
            bits_in(*self).len() == 32,
        ensures
            low_bits_of(r, 32) == bits_in(*self),
    {
        bitvec::field::BitField::load(&self.inner)
    }
}

/// The first `upto` bits of `bits`, filled up with zeros to 32 bits.
pub open spec fn padded(bits: Seq<bool>, upto: nat) -> Seq<bool> {
    Seq::new(32, |i: int| i < upto && bits[i])
}

/// Walks `trie` along the lowest `len` bits of the network of `search_pfx`, the
/// most significant of them first, as far as there are nodes. Returns the way
/// walked as a prefix: the bits followed, left-aligned, and their number.
pub fn longest_matching_prefix(search_pfx: &Prefix<u32, NoMeta>, trie: &BinaryNode2<NoMeta>) -> (r: Prefix<u32, NoMeta>)
    requires
        1 <= search_pfx.len <= 32,
    ensures
        r.len == trie.depth_along(low_bits_of(search_pfx.net, search_pfx.len as nat), 0),
        low_bits_of(r.net, 32) == padded(low_bits_of(search_pfx.net, search_pfx.len as nat), r.len as nat),
        r.meta.is_none(),
{
    let mut cursor = trie;
    let mut match_pfx = Bits::repeat(false, 32);
    let mut match_len: u8 = 0;
    let mut bits = Bits::repeat(false, search_pfx.len as usize);
    bits.store(search_pfx.net);
    let ghost way = bits_in(bits);
    let mut i: usize = 0;
    let mut done = false;
    proof {
        assert(bits_in(match_pfx) =~= padded(way, 0));
    }
    while !done && i < bits.len()
        invariant
            way == bits_in(bits),
            way.len() == search_pfx.len,
            way.len() <= 32,
            i <= way.len(),
            match_len == i,
            bits_in(match_pfx) == padded(way, i as nat),
            !done ==> trie.depth_along(way, 0) == i + cursor.depth_along(way, i as int),
            done ==> trie.depth_along(way, 0) == i,
        decreases way.len() - i + (if done { 0int } else { 1int }),
    {
        let b = bits.get(i);
        let next = if b {
            &cursor.right
        } else {
            &cursor.left
        };
        match next {
            Some(child) => {
                cursor = child;
                match_pfx.set(i, b);
                match_len += 1;
                proof {
                    assert(bits_in(match_pfx) =~= padded(way, (i + 1) as nat));
                }
                i += 1;
            },
            None => {
                done = true;
            },
        }
    }
    Prefix::new(match_pfx.load(), match_len)
}

/// Puts `pfx` into the trie below `node` at the end of the way along `bits`,
/// from bit `index` on.
fn insert_along(node: &mut BinaryNode2<NoMeta>, bits: &Bits, index: usize, pfx: Prefix<u32, NoMeta>)
    requires
        index <= bits_in(*bits).len(),
    ensures
        *final(node) == old(node).with_prefix(bits_in(*bits), index as int, pfx),
    decreases bits_in(*bits).len() - index,
{
    if index == bits.len() {
        node.prefix = Some(pfx);
    } else if bits.get(index) {
        if node.right.is_none() {
            node.right = Some(Box::new(BinaryNode2::new(None)));
        }
        match &mut node.right {
            Some(child) => insert_along(child, bits, index + 1, pfx),
            None => {},
        }
    } else {
        if node.left.is_none() {
            node.left = Some(Box::new(BinaryNode2::new(None)));
        }
        match &mut node.left {
            Some(child) => insert_along(child, bits, index + 1, pfx),
            None => {},
        }
    }
}

/// The leading `len` bits of `net`, the first one first.
pub open spec fn leading_bits_of(net: u32, len: nat) -> Seq<bool> {
    low_bits_of(net, 32).subrange(0, len as int)
}

/// `net` with all bits but its leading `len` bits cleared.
pub open spec fn clear_host_bits(net: u32, len: nat) -> u32 {
    if len == 0 {
        0
    } else {
        (net >> ((32 - len) as u32)) << ((32 - len) as u32)
    }
}

proof fn bv_clear(net: u32, len: u32, i: u32)
    by (bit_vector)
    requires
        0 < len <= 32,
        i < 32,
    ensures
        ((((net >> ((32 - len) as u32)) << ((32 - len) as u32)) >> i) & 1 == 1) <==> (i + len >= 32 && (net >> i) & 1
            == 1),
        (0u32 >> i) & 1 == 0,
{
}

/// The bits of a network with its host bits cleared are its leading bits,
/// filled up with zeros.
pub proof fn lemma_clear_host_bits(net: u32, len: nat)
    requires
        len <= 32,
    ensures
        low_bits_of(clear_host_bits(net, len), 32) == padded(low_bits_of(net, 32), len),
{
    let c = clear_host_bits(net, len);
    assert forall|i: int| 0 <= i < 32 implies low_bits_of(c, 32)[i] == padded(low_bits_of(net, 32), len)[i] by {
        let j = (31 - i) as u32;
        bv_clear(net, if len == 0 { 1 } else { len as u32 }, j);
    }
    assert(low_bits_of(c, 32) =~= padded(low_bits_of(net, 32), len));
}

/// A word is known by its 32 bits.
pub proof fn lemma_word_of_bits(a: u32, b: u32)
    requires
        low_bits_of(a, 32) == low_bits_of(b, 32),
    ensures
        a == b,
{
    crate::word::lemma_bits_narrow(a as u128, 32);
    crate::word::lemma_bits_narrow(b as u128, 32);
    assert forall|i: nat| #[trigger]
        crate::word::bits_of(a as u128).contains(i) <==> crate::word::bits_of(b as u128).contains(i) by {
        if i < 32 {
            assert(low_bits_of(a, 32)[31 - i] == bit_set(a as u128, i));
            assert(low_bits_of(b, 32)[31 - i] == bit_set(b as u128, i));
        }
    }
    assert(crate::word::bits_of(a as u128) =~= crate::word::bits_of(b as u128));
    crate::word::lemma_bits_determine(a as u128, b as u128);
}

/// Stores the prefix of the leading `len` bits of `net` in `trie`: at the end
/// of the way along those bits, as a prefix whose network has its other bits
/// cleared. Returns that network.
pub fn insert_prefix(trie: &mut BinaryNode2<NoMeta>, net: u32, len: u8) -> (stored: u32)
    requires
        len <= 32,
    ensures
        stored == clear_host_bits(net, len as nat),
        *final(trie) == old(trie).with_prefix(
            leading_bits_of(net, len as nat),
            0,
            Prefix { net: stored, len, meta: None },
        ),
{
    let mut bits = Bits::repeat(false, 32);
    bits.store(net);
    bits.resize(len as usize, false);
    let mut cleared = Bits::repeat(false, 32);
    cleared.store(net);
    cleared.resize(len as usize, false);
    cleared.resize(32, false);
    proof {
        assert(bits_in(cleared) =~= padded(low_bits_of(net, 32), len as nat));
    }
    let stored = cleared.load();
    proof {
        lemma_clear_host_bits(net, len as nat);
        lemma_word_of_bits(stored, clear_host_bits(net, len as nat));
    }
    insert_along(trie, &bits, 0, Prefix::new(stored, len));
    stored
}

/// The trie of three sample prefixes: `240.0.0.255/32`, `64.0.0.0/4` and `192.0.0.0/8`.
pub fn create_trie() -> (r: BinaryNode2<NoMeta>)
    ensures
        r == BinaryNode2::<NoMeta>::empty().with_prefix(
            leading_bits_of(0xf000_00ff, 32),
            0,
            Prefix { net: 0xf000_00ff, len: 32, meta: None },
        ).with_prefix(leading_bits_of(0x4060_70d3, 4), 0, Prefix { net: 0x4000_0000, len: 4, meta: None }).with_prefix(
            leading_bits_of(0xc003_0020, 8),
            0,
            Prefix { net: 0xc000_0000, len: 8, meta: None },
        ),
{
    let mut trie = BinaryNode2::new(None);
    proof {
        assert(clear_host_bits(0xf000_00ff, 32) == 0xf000_00ff) by (bit_vector);
        assert(clear_host_bits(0x4060_70d3, 4) == 0x4000_0000) by (bit_vector);
        assert(clear_host_bits(0xc003_0020, 8) == 0xc000_0000) by (bit_vector);
    }
    insert_prefix(&mut trie, 0b1111_0000_0000_0000_0000_0000_1111_1111_u32, 32);
    insert_prefix(&mut trie, 0b0100_0000_0110_0000_0111_0000_1101_0011_u32, 4);
    insert_prefix(&mut trie, 0b1100_0000_0000_0011_0000_0000_0010_0000_u32, 8);
    trie
}

} // verus!
