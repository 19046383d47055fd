//! Address families and the prefix record.

use vstd::prelude::*;
use vstd::arithmetic::power2::{pow2, lemma2_to64, lemma_pow2_adds};
use crate::error::StoreError;
use crate::word::{bit_set, bits_of, lemma_bits_shr, lemma_nonzero_has_bit};
use crate::lpm::{
    PrefixKey, ancestor, key_of, longest_match, longest_match_upto, nibble_bits, prefix_bits,
    lemma_key_ancestor, lemma_prefix_bits_bound, lemma_prefix_bits_ends, lemma_prefix_bits_split,
    lemma_prefix_bits_step,
};

verus! {

/// An unsigned integer type that holds the addresses of one family.
pub trait AddressFamily: Sized + Copy {
    /// Width of an address in bits.
    spec fn spec_bits() -> nat;

    /// Version of the Internet Protocol that the addresses belong to.
    spec fn spec_family() -> nat;

    /// The address as a number.
    spec fn value(self) -> nat;

    /// An address has at least one bit and at most 128.
    proof fn lemma_width()
        ensures
            0 < Self::spec_bits() <= 128,
    ;

    /// An address fits the width of its family.
    proof fn lemma_family(self)
        ensures
            0 < Self::spec_bits() <= 128,
            self.value() < pow2(Self::spec_bits()),
    ;

    /// Width of an address in bits.
    fn bits() -> (r: u8)
        ensures
            r == Self::spec_bits(),
    ;

    /// Version of the Internet Protocol that the addresses belong to.
    fn get_family() -> (r: u8)
        ensures
            r == Self::spec_family(),
    ;

    /// The address with the most significant bit set and no other.
    fn bitmask() -> (r: Self)
        ensures
            r.value() == pow2((Self::spec_bits() - 1) as nat),
    ;

    /// The `len` bits of `net` that start `start_bit` bits from the top, right-aligned.
    fn get_nibble(net: Self, start_bit: u8, len: u8) -> (r: u32)
        requires
            start_bit + len <= Self::spec_bits(),
            len <= 32,
        ensures
            r == nibble_bits(net.value(), Self::spec_bits(), start_bit as nat, len as nat),
    ;

    /// The leading `len` bits of `net`, right-aligned: the canonical form of
    /// the network of a prefix of that length.
    fn truncate(net: Self, len: u8) -> (r: Self)
        requires
            len <= Self::spec_bits(),
        ensures
            r.value() == prefix_bits(net.value(), Self::spec_bits(), len as nat),
    ;

    /// The address zero.
    fn zero() -> (r: Self)
        ensures
            r.value() == 0,
    ;

    /// Whether `a` is the lower address.
    fn less_than(a: Self, b: Self) -> (r: bool)
        ensures
            r == (a.value() < b.value()),
    ;

    /// An address whose leading `len` bits are the `len`-bit number `id`:
    /// `truncate` undone.
    fn left_align(id: Self, len: u8) -> (r: Self)
        requires
            len <= Self::spec_bits(),
            id.value() < pow2(len as nat),
        ensures
            prefix_bits(r.value(), Self::spec_bits(), len as nat) == id.value(),
    ;

    /// Number of leading bits that `a` and `b` have in common.
    fn common_prefix_len(a: Self, b: Self) -> (r: u8)
        ensures
            r <= Self::spec_bits(),
            prefix_bits(a.value(), Self::spec_bits(), r as nat) == prefix_bits(
                b.value(),
                Self::spec_bits(),
                r as nat,
            ),
            r < Self::spec_bits() ==> prefix_bits(a.value(), Self::spec_bits(), (r + 1) as nat) != prefix_bits(
                b.value(),
                Self::spec_bits(),
                (r + 1) as nat,
            ),
    ;
}

/// Calls `PrimInt::leading_zeros` of the crate num on a `u32`, which hands the
/// call on to `u32::leading_zeros` of std: the number of zero bits above the
/// highest one, and 32 for zero, in the words in which vstd states it.
#[verifier::external_body]
fn prim_leading_zeros_u32(x: u32) -> (r: u32)
    ensures
        r == vstd::std_specs::bits::u32_leading_zeros(x),
{
    num::PrimInt::leading_zeros(x)
}

/// Calls `PrimInt::leading_zeros` of the crate num on a `u128`, which hands the
/// call on to `u128::leading_zeros` of std: the number of zero bits above the
/// highest one, and 128 for zero.
#[verifier::external_body]
fn prim_leading_zeros_u128(x: u128) -> (r: u32)
    ensures
        r <= 128,
        forall|i: nat| 128 - r <= i < 128 ==> !bit_set(x, i),
        r < 128 ==> bit_set(x, (127 - r) as nat),
{
    num::PrimInt::leading_zeros(x)
}

proof fn bv_xor32(a: u32, b: u32, s: u32)
    by (bit_vector)
    requires
        s < 32,
    ensures
        (a ^ b) >> s == 0 ==> a >> s == b >> s,
        ((a ^ b) >> s) & 1 != 0 ==> a >> s != b >> s,
        (a >> s) == 0 ==> ((a << ((32 - s) as u32)) >> ((32 - s) as u32)) == a,
{
}

proof fn bv_xor128(a: u128, b: u128, s: u128)
    by (bit_vector)
    requires
        s < 128,
    ensures
        (a ^ b) >> s == 0 ==> a >> s == b >> s,
        ((a ^ b) >> s) & 1 == 1 ==> a >> s != b >> s,
{
}

proof fn bv_align128(a: u128, s: u128)
    by (bit_vector)
    requires
        0 < s < 128,
        a >> s == 0,
    ensures
        ((a << ((128 - s) as u128)) >> ((128 - s) as u128)) == a,
{
}


impl AddressFamily for u32 {
    open spec fn spec_bits() -> nat {
        32
    }

    open spec fn spec_family() -> nat {
        4
    }

    open spec fn value(self) -> nat {
        self as nat
    }

    proof fn lemma_width() {
    }

    proof fn lemma_family(self) {
        lemma2_to64();
    }

    fn bits() -> (r: u8) {
        32
    }

    fn get_family() -> (r: u8) {
        4
    }

    fn bitmask() -> (r: u32) {
        proof {
            lemma2_to64();
        }
        0x8000_0000
    }

    fn get_nibble(net: u32, start_bit: u8, len: u8) -> (r: u32) {
        proof {
            lemma2_to64();
        }
        if len == 0 {
            return 0;
        }
        let shift: u32 = 32 - (start_bit as u32 + len as u32);
        let top: u32 = net >> shift;
        proof {
            vstd::bits::lemma_u32_shr_is_div(net, shift);
        }
        if len == 32 {
            proof {
                lemma_prefix_bits_ends(net as nat, 32);
                vstd::arithmetic::div_mod::lemma_small_mod(net as nat, pow2(32));
            }
            top
        } else {
            proof {
                vstd::arithmetic::power2::lemma_pow2_strictly_increases(len as nat, 32);
                vstd::bits::lemma_u32_shl_is_mul(1, len as u32);
            }
            top % (1u32 << len)
        }
    }

    fn truncate(net: u32, len: u8) -> (r: u32) {
        if len == 0 {
            proof {
                net.lemma_family();
                lemma_prefix_bits_ends(net as nat, 32);
            }
            0
        } else {
            let shift: u32 = 32 - len as u32;
            proof {
                vstd::bits::lemma_u32_shr_is_div(net, shift);
            }
            net >> shift
        }
    }

    fn zero() -> (r: u32) {
        0
    }

    fn less_than(a: u32, b: u32) -> (r: bool) {
        a < b
    }

    fn left_align(id: u32, len: u8) -> (r: u32) {
        proof {
            lemma2_to64();
        }
        if len == 0 {
            proof {
                lemma_prefix_bits_ends(0, 32);
            }
            0
        } else if len == 32 {
            proof {
                lemma_prefix_bits_ends(id as nat, 32);
            }
            id
        } else {
            let shift: u32 = 32 - len as u32;
            proof {
                vstd::bits::lemma_u32_shr_is_div(id, len as u32);
                vstd::arithmetic::div_mod::lemma_basic_div(id as int, pow2(len as nat) as int);
                bv_xor32(id, 0, len as u32);
                vstd::bits::lemma_u32_shr_is_div(id << shift, shift);
            }
            id << shift
        }
    }

    fn common_prefix_len(a: u32, b: u32) -> (r: u8) {
        let x = a ^ b;
        let zeros = prim_leading_zeros_u32(x);
        proof {
            lemma2_to64();
            vstd::std_specs::bits::axiom_u32_leading_zeros(x);
            a.lemma_family();
            b.lemma_family();
            lemma_prefix_bits_ends(a as nat, 32);
            lemma_prefix_bits_ends(b as nat, 32);
            if zeros > 0 {
                let s = (32 - zeros) as u32;
                bv_xor32(a, b, s);
                vstd::bits::lemma_u32_shr_is_div(a, s);
                vstd::bits::lemma_u32_shr_is_div(b, s);
            }
            if zeros < 32 {
                let t = (31 - zeros) as u32;
                bv_xor32(a, b, t);
                vstd::bits::lemma_u32_shr_is_div(a, t);
                vstd::bits::lemma_u32_shr_is_div(b, t);
            }
        }
        zeros as u8
    }
}

impl AddressFamily for u128 {
    open spec fn spec_bits() -> nat {
        128
    }

    open spec fn spec_family() -> nat {
        6
    }

    open spec fn value(self) -> nat {
        self as nat
    }

    proof fn lemma_width() {
    }

    proof fn lemma_family(self) {
        lemma2_to64();
        lemma_pow2_adds(64, 64);
    }

    fn bits() -> (r: u8) {
        128
    }

    fn get_family() -> (r: u8) {
        6
    }

    fn bitmask() -> (r: u128) {
        proof {
            lemma2_to64();
            vstd::arithmetic::power2::lemma2_to64_rest();
            lemma_pow2_adds(64, 63);
        }
        0x8000_0000_0000_0000_0000_0000_0000_0000
    }

    fn get_nibble(net: u128, start_bit: u8, len: u8) -> (r: u32) {
        proof {
            lemma2_to64();
        }
        if len == 0 {
            return 0;
        }
        let shift: u128 = 128 - (start_bit as u128 + len as u128);
        let top: u128 = net >> shift;
        proof {
            vstd::bits::lemma_u128_shr_is_div(net, shift);
            vstd::arithmetic::power2::lemma_pow2_strictly_increases(len as nat, 64);
            vstd::bits::lemma_u64_shl_is_mul(1, len as u64);
            if len < 32 {
                vstd::arithmetic::power2::lemma_pow2_strictly_increases(len as nat, 32);
            }
            vstd::arithmetic::div_mod::lemma_mod_bound(top as int, pow2(len as nat) as int);
        }
        (top % ((1u64 << len) as u128)) as u32
    }

    fn truncate(net: u128, len: u8) -> (r: u128) {
        if len == 0 {
            proof {
                net.lemma_family();
                lemma_prefix_bits_ends(net as nat, 128);
            }
            0
        } else {
            let shift: u128 = 128 - len as u128;
            proof {
                vstd::bits::lemma_u128_shr_is_div(net, shift);
            }
            net >> shift
        }
    }

    fn zero() -> (r: u128) {
        0
    }

    fn less_than(a: u128, b: u128) -> (r: bool) {
        a < b
    }

    fn left_align(id: u128, len: u8) -> (r: u128) {
        proof {
            lemma2_to64();
            id.lemma_family();
        }
        if len == 0 {
            proof {
                lemma_prefix_bits_ends(0, 128);
            }
            0
        } else if len == 128 {
            proof {
                lemma_prefix_bits_ends(id as nat, 128);
            }
            id
        } else {
            let shift: u128 = 128 - len as u128;
            proof {
                vstd::bits::lemma_u128_shr_is_div(id, len as u128);
                vstd::arithmetic::div_mod::lemma_basic_div(id as int, pow2(len as nat) as int);
                bv_align128(id, len as u128);
                vstd::bits::lemma_u128_shr_is_div(id << shift, shift);
            }
            id << shift
        }
    }

    fn common_prefix_len(a: u128, b: u128) -> (r: u8) {
        let x = a ^ b;
        let zeros = prim_leading_zeros_u128(x);
        proof {
            lemma2_to64();
            a.lemma_family();
            b.lemma_family();
            lemma_prefix_bits_ends(a as nat, 128);
            lemma_prefix_bits_ends(b as nat, 128);
            if zeros > 0 {
                let s = (128 - zeros) as u128;
                let y = x >> s;
                if y != 0 {
                    lemma_nonzero_has_bit(y);
                    let i = choose|i: nat| bits_of(y).contains(i);
                    lemma_bits_shr(x, s);
                    assert(bits_of(x).contains(i + s as nat));
                    assert(bit_set(x, i + s as nat));
                }
                bv_xor128(a, b, s);
                vstd::bits::lemma_u128_shr_is_div(a, s);
                vstd::bits::lemma_u128_shr_is_div(b, s);
            }
            if zeros < 128 {
                let t = (127 - zeros) as u128;
                bv_xor128(a, b, t);
                vstd::bits::lemma_u128_shr_is_div(a, t);
                vstd::bits::lemma_u128_shr_is_div(b, t);
            }
        }
        zeros as u8
    }
}

/// Metadata of a prefix that carries none.
#[derive(Debug, Clone, Copy, PartialEq, Eq, Structural)]
pub struct NoMeta;

/// Metadata of a prefix: the number of the autonomous system that announces it.
#[derive(Debug, Clone, Copy, PartialEq, Eq, Structural)]
pub struct PrefixAs(pub u32);

/// An IPv4 address.
#[derive(Debug, Clone, Copy, PartialEq, Eq, Structural)]
pub struct IPv4(pub u32);

impl core::ops::BitOr for IPv4 {
    type Output = IPv4;

    fn bitor(self, rhs: IPv4) -> (r: IPv4) {
        IPv4(self.0 | rhs.0)
    }
}

impl vstd::std_specs::ops::BitOrSpecImpl for IPv4 {
    open spec fn obeys_bitor_spec() -> bool {
        true
    }

    open spec fn bitor_req(self, rhs: IPv4) -> bool {
        true
    }

    open spec fn bitor_spec(self, rhs: IPv4) -> IPv4 {
        IPv4(self.0 | rhs.0)
    }
}

/// What can be the metadata of a prefix: every type.
pub trait Meta<AF: AddressFamily>: Sized {
    /// The prefix of `net` and `len` with the metadata `meta`.
    fn with_meta(net: AF, len: u8, meta: Option<Self>) -> (r: Prefix<AF, Self>)
        ensures
            r.net == net,
            r.len == len,
            r.meta == meta,
    ;
}

impl<AF: AddressFamily, T> Meta<AF> for T {
    fn with_meta(net: AF, len: u8, meta: Option<T>) -> (r: Prefix<AF, T>) {
        Prefix { net, len, meta }
    }
}

/// A network address with a prefix length and the caller's metadata.
#[derive(Debug)]
pub struct Prefix<AF: AddressFamily, T> {
    pub net: AF,
    pub len: u8,
    pub meta: Option<T>,
}

impl<AF: AddressFamily, T> Prefix<AF, T> {
    /// The length fits the address family.
    pub open spec fn valid(self) -> bool {
        self.len <= AF::spec_bits()
    }

    /// The identity of the prefix: host bits and metadata play no part in it.
    pub open spec fn key(self) -> PrefixKey {
        key_of(self.net.value(), AF::spec_bits(), self.len as nat)
    }

    pub fn new(net: AF, len: u8) -> (r: Self)
        ensures
            r.net == net,
            r.len == len,
            r.meta.is_none(),
    {
        T::with_meta(net, len, None)
    }

    pub fn new_with_meta(net: AF, len: u8, meta: T) -> (r: Self)
        ensures
            r.net == net,
            r.len == len,
            r.meta == Some(meta),
    {
        T::with_meta(net, len, Some(meta))
    }

    /// The same network and length without the metadata: the form of a query.
    pub fn strip_meta(&self) -> (r: Prefix<AF, NoMeta>)
        ensures
            r.net == self.net,
            r.len == self.len,
            r.meta.is_none(),
            r.key() == self.key(),
    {
        Prefix { net: self.net, len: self.len, meta: None }
    }
}

/// Bit `pos` of the key `k`, counted from its most significant bit.
pub open spec fn key_bit(k: PrefixKey, pos: nat) -> nat {
    nibble_bits(k.bits, k.len, pos, 1)
}

/// The keys `a` and `b` are equally long and have the same bits from `pos` on.
pub open spec fn same_from(a: PrefixKey, b: PrefixKey, pos: nat) -> bool
    decreases b.len - pos,
{
    if a.len != b.len {
        false
    } else if pos >= b.len {
        true
    } else {
        key_bit(a, pos) == key_bit(b, pos) && same_from(a, b, pos + 1)
    }
}

/// A key whose bits fit its length.
pub open spec fn key_ok(k: PrefixKey, width: nat) -> bool {
    k.len <= width && k.bits < pow2(k.len)
}

/// Keys that agree in their leading `pos` bits and in all bits from `pos` on are one key.
pub proof fn lemma_same_from(a: PrefixKey, b: PrefixKey, pos: nat)
    requires
        a.bits < pow2(a.len),
        b.bits < pow2(b.len),
        pos <= b.len,
        same_from(a, b, pos),
        prefix_bits(a.bits, a.len, pos) == prefix_bits(b.bits, b.len, pos),
    ensures
        a == b,
    decreases b.len - pos,
{
    if pos >= b.len {
        lemma_prefix_bits_ends(a.bits, a.len);
        lemma_prefix_bits_ends(b.bits, b.len);
    } else {
        lemma_prefix_bits_split(a.bits, a.len, pos, 1);
        lemma_prefix_bits_split(b.bits, b.len, pos, 1);
        lemma_same_from(a, b, pos + 1);
    }
}

/// A key has the same bits as itself.
pub proof fn lemma_same_from_self(a: PrefixKey, pos: nat)
    ensures
        same_from(a, a, pos),
    decreases a.len - pos,
{
    if pos < a.len {
        lemma_same_from_self(a, pos + 1);
    }
}

/// Bit `pos` of the key of an address is bit `pos` of the address.
pub proof fn lemma_key_bit(x: nat, width: nat, len: nat, pos: nat)
    requires
        pos < len <= width,
    ensures
        key_bit(key_of(x, width, len), pos) == nibble_bits(x, width, pos, 1),
{
    lemma_prefix_bits_step(x, width, pos + 1, len);
}

/// A node of the binary trie: one address bit per level.
pub struct TrieNode<'a, AF: AddressFamily, T> {
    pub prefix: Option<&'a Prefix<AF, T>>,
    pub left: Option<Box<TrieNode<'a, AF, T>>>,
    pub right: Option<Box<TrieNode<'a, AF, T>>>,
}

/// Counters of one level of the binary trie.
#[derive(Debug, Clone, Copy, PartialEq, Eq, Structural)]
pub struct TrieLevelStats {
    pub level: u8,
    pub nodes_num: u32,
    pub prefixes_num: u32,
}

/// What storing a new prefix of `len` bits below a node `depth` bits deep does
/// to the counters: one more prefix of `len` bits, at most one more node on
/// each level below `depth` down to `len`, and nothing else.
pub open spec fn counted_insert(before: Seq<TrieLevelStats>, after: Seq<TrieLevelStats>, depth: int, len: int) -> bool {
    &&& after.len() == before.len()
    &&& forall|l: int|
        0 <= l < before.len() ==> {
            &&& (#[trigger] after[l]).level == before[l].level
            &&& after[l].prefixes_num == before[l].prefixes_num + if l == len {
                1int
            } else {
                0int
            }
            &&& before[l].nodes_num <= after[l].nodes_num
            &&& after[l].nodes_num <= before[l].nodes_num + if depth < l <= len {
                1int
            } else {
                0int
            }
        }
}

impl<'a, AF: AddressFamily, T> TrieNode<'a, AF, T> {
    /// Every prefix below this node, which sits `depth` bits deep at the end of
    /// the bits `path`, is stored where its own bits lead.
    pub open spec fn wf_at(self, depth: nat, path: nat) -> bool
        decreases self,
    {
        &&& depth <= AF::spec_bits()
        &&& match self.prefix {
            Some(p) => p.key() == PrefixKey { len: depth, bits: path },
            None => true,
        }
        &&& match self.left {
            Some(l) => l.wf_at(depth + 1, 2 * path),
            None => true,
        }
        &&& match self.right {
            Some(r) => r.wf_at(depth + 1, 2 * path + 1),
            None => true,
        }
    }

    /// The prefix found by following the bits of `k` from bit `depth` on.
    pub open spec fn find(self, depth: nat, k: PrefixKey) -> Option<&'a Prefix<AF, T>>
        decreases self,
    {
        if depth >= k.len {
            self.prefix
        } else if key_bit(k, depth) == 0 {
            match self.left {
                Some(l) => l.find(depth + 1, k),
                None => None,
            }
        } else {
            match self.right {
                Some(r) => r.find(depth + 1, k),
                None => None,
            }
        }
    }

    /// Number of nodes below this node, itself included, that sit `level` bits deep.
    pub open spec fn nodes_at(self, depth: nat, level: nat) -> nat
        decreases self,
    {
        (if depth == level { 1nat } else { 0nat }) + (match self.left {
            Some(l) => l.nodes_at(depth + 1, level),
            None => 0,
        }) + (match self.right {
            Some(r) => r.nodes_at(depth + 1, level),
            None => 0,
        })
    }

    /// Number of prefixes of length `level` stored at or below this node.
    pub open spec fn prefixes_at(self, depth: nat, level: nat) -> nat
        decreases self,
    {
        (if depth == level && self.prefix.is_some() { 1nat } else { 0nat }) + (match self.left {
            Some(l) => l.prefixes_at(depth + 1, level),
            None => 0,
        }) + (match self.right {
            Some(r) => r.prefixes_at(depth + 1, level),
            None => 0,
        })
    }

    /// A node without children.
    pub fn new(pfx: Option<&'a Prefix<AF, T>>) -> (r: Self)
        ensures
            r.prefix == pfx,
            r.left.is_none(),
            r.right.is_none(),
    {
        TrieNode { prefix: pfx, left: None, right: None }
    }

    /// Only the node itself sits at its own depth, and nothing below it sits higher.
    pub proof fn lemma_nodes_above(self, depth: nat, level: nat)
        requires
            level <= depth,
        ensures
            self.nodes_at(depth, level) == if level == depth {
                1nat
            } else {
                0nat
            },
            level < depth ==> self.prefixes_at(depth, level) == 0,
        decreases self,
    {
        match self.left {
            Some(l) => {
                l.lemma_nodes_above(depth + 1, level);
            },
            None => {},
        }
        match self.right {
            Some(r) => {
                r.lemma_nodes_above(depth + 1, level);
            },
            None => {},
        }
    }

    /// One step down: the child on the side of the next bit of `net` is
    /// well-formed where that bit leads, and finds what its parent finds for
    /// every key that goes on with that bit.
    pub proof fn lemma_step(self, child: Self, net: nat, depth: nat, bit: nat)
        requires
            self.wf_at(depth, prefix_bits(net, AF::spec_bits(), depth)),
            depth < AF::spec_bits(),
            bit == nibble_bits(net, AF::spec_bits(), depth, 1),
            match (if bit == 0 {
                self.left
            } else {
                self.right
            }) {
                Some(c) => *c == child,
                None => false,
            },
        ensures
            child.wf_at(depth + 1, prefix_bits(net, AF::spec_bits(), depth + 1)),
            child.prefix.is_some() ==> child.prefix.unwrap().key() == key_of(net, AF::spec_bits(), depth + 1),
            forall|k: PrefixKey|
                k.len > depth && key_bit(k, depth) == bit ==> #[trigger] self.find(depth, k) == child.find(
                    depth + 1,
                    k,
                ),
    {
        reveal_with_fuel(TrieNode::wf_at, 2);
        lemma2_to64();
        lemma_prefix_bits_split(net, AF::spec_bits(), depth, 1);
        assert(child.wf_at(depth + 1, prefix_bits(net, AF::spec_bits(), depth + 1)));
    }

    /// What `find` returns is stored under its own key.
    pub proof fn lemma_find_key(self, depth: nat, path: nat, k: PrefixKey)
        requires
            self.wf_at(depth, path),
            depth <= k.len,
            path == prefix_bits(k.bits, k.len, depth),
            k.bits < pow2(k.len),
        ensures
            match self.find(depth, k) {
                Some(p) => p.key() == k,
                None => true,
            },
        decreases self,
    {
        if depth >= k.len {
            lemma_prefix_bits_ends(k.bits, k.len);
        } else {
            lemma_prefix_bits_split(k.bits, k.len, depth, 1);
            lemma2_to64();
            if key_bit(k, depth) == 0 {
                match self.left {
                    Some(l) => {
                        l.lemma_find_key(depth + 1, 2 * path, k);
                    },
                    None => {},
                }
            } else {
                match self.right {
                    Some(r) => {
                        r.lemma_find_key(depth + 1, 2 * path + 1, k);
                    },
                    None => {},
                }
            }
        }
    }

    /// Stores `pfx` below this node, which sits `depth` bits deep on the way of
    /// `pfx`, and counts in `stats` the nodes and the prefix that it adds.
    pub fn insert_at(&mut self, pfx: &'a Prefix<AF, T>, depth: u8, stats: &mut Vec<TrieLevelStats>) -> (r: Result<
        (),
        StoreError,
    >)
        requires
            depth <= pfx.len <= AF::spec_bits(),
            old(self).wf_at(depth as nat, prefix_bits(pfx.net.value(), AF::spec_bits(), depth as nat)),
            old(stats)@.len() == AF::spec_bits() + 1,
            forall|l: int| depth < l <= AF::spec_bits() ==> (#[trigger] old(stats)@[l]).nodes_num < u32::MAX,
            forall|l: int| depth <= l <= AF::spec_bits() ==> (#[trigger] old(stats)@[l]).prefixes_num < u32::MAX,
        ensures
            final(self).wf_at(depth as nat, prefix_bits(pfx.net.value(), AF::spec_bits(), depth as nat)),
            final(stats)@.len() == old(stats)@.len(),
            forall|l: int|
                0 <= l <= AF::spec_bits() ==> {
                    &&& (#[trigger] final(stats)@[l]).level == old(stats)@[l].level
                    &&& final(stats)@[l].nodes_num - old(stats)@[l].nodes_num == final(self).nodes_at(
                        depth as nat,
                        l as nat,
                    ) - old(self).nodes_at(depth as nat, l as nat)
                    &&& final(stats)@[l].prefixes_num - old(stats)@[l].prefixes_num == final(self).prefixes_at(
                        depth as nat,
                        l as nat,
                    ) - old(self).prefixes_at(depth as nat, l as nat)
                },
            r.is_ok() ==> counted_insert(old(stats)@, final(stats)@, depth as int, pfx.len as int),
            match r {
                Ok(()) => old(self).find(depth as nat, pfx.key()).is_none() && forall|k: PrefixKey|
                    k.len >= depth ==> #[trigger] final(self).find(depth as nat, k) == if same_from(
                        k,
                        pfx.key(),
                        depth as nat,
                    ) {
                        Some(pfx)
                    } else {
                        old(self).find(depth as nat, k)
                    },
                Err(e) => e == StoreError::Duplicate && old(self).find(depth as nat, pfx.key()).is_some()
                    && *final(self) == *old(self) && final(stats)@ == old(stats)@,
            },
        decreases pfx.len - depth,
    {
        let ghost net = pfx.net.value();
        let ghost bits = AF::spec_bits();
        let ghost path = prefix_bits(net, bits, depth as nat);
        let ghost key = pfx.key();
        if depth == pfx.len {
            if self.prefix.is_some() {
                return Err(StoreError::Duplicate);
            }
            self.prefix = Some(pfx);
            let mut counter = stats[depth as usize];
            counter.prefixes_num = counter.prefixes_num + 1;
            stats[depth as usize] = counter;
            proof {
                assert forall|k: PrefixKey| k.len >= depth implies #[trigger] self.find(depth as nat, k) == if same_from(
                    k,
                    key,
                    depth as nat,
                ) {
                    Some(pfx)
                } else {
                    old(self).find(depth as nat, k)
                } by {}
            }
            return Ok(());
        }
        let bit = AF::get_nibble(pfx.net, depth, 1);
        proof {
            lemma2_to64();
            pfx.net.lemma_family();
            lemma_prefix_bits_split(net, bits, depth as nat, 1);
            lemma_key_bit(net, bits, pfx.len as nat, depth as nat);
        }
        if bit == 0 {
            let ghost mut created = false;
            if self.left.is_none() {
                self.left = Some(Box::new(TrieNode::new(None)));
                let mut counter = stats[(depth + 1) as usize];
                counter.nodes_num = counter.nodes_num + 1;
                stats[(depth + 1) as usize] = counter;
                proof {
                    created = true;
                }
            }
            let ghost mid = *self;
            let ghost mid_stats = stats@;
            let r = match &mut self.left {
                Some(child) => child.insert_at(pfx, depth + 1, stats),
                None => Err(StoreError::Duplicate),
            };
            proof {
                if r.is_ok() {
                    assert forall|k: PrefixKey| k.len >= depth implies #[trigger] self.find(depth as nat, k)
                        == if same_from(k, key, depth as nat) {
                        Some(pfx)
                    } else {
                        old(self).find(depth as nat, k)
                    } by {
                        if k.len > depth && key_bit(k, depth as nat) == 0 {
                            assert(self.left.unwrap().find(depth as nat + 1, k) == if same_from(
                                k,
                                key,
                                depth as nat + 1,
                            ) {
                                Some(pfx)
                            } else {
                                mid.left.unwrap().find(depth as nat + 1, k)
                            });
                        }
                    }
                } else {
                    assert(!created);
                    assert(self.left == old(self).left);
                }
            }
            r
        } else {
            let ghost mut created = false;
            if self.right.is_none() {
                self.right = Some(Box::new(TrieNode::new(None)));
                let mut counter = stats[(depth + 1) as usize];
                counter.nodes_num = counter.nodes_num + 1;
                stats[(depth + 1) as usize] = counter;
                proof {
                    created = true;
                }
            }
            let ghost mid = *self;
            let ghost mid_stats = stats@;
            let r = match &mut self.right {
                Some(child) => child.insert_at(pfx, depth + 1, stats),
                None => Err(StoreError::Duplicate),
            };
            proof {
                if r.is_ok() {
                    assert forall|k: PrefixKey| k.len >= depth implies #[trigger] self.find(depth as nat, k)
                        == if same_from(k, key, depth as nat) {
                        Some(pfx)
                    } else {
                        old(self).find(depth as nat, k)
                    } by {
                        if k.len > depth && key_bit(k, depth as nat) != 0 {
                            assert(self.right.unwrap().find(depth as nat + 1, k) == if same_from(
                                k,
                                key,
                                depth as nat + 1,
                            ) {
                                Some(pfx)
                            } else {
                                mid.right.unwrap().find(depth as nat + 1, k)
                            });
                        }
                    }
                } else {
                    assert(!created);
                    assert(self.right == old(self).right);
                }
            }
            r
        }
    }
}

/// The binary trie: its root, and one block of counters per prefix length.
pub struct Trie<'a, AF: AddressFamily, T>(pub TrieNode<'a, AF, T>, pub Vec<TrieLevelStats>);

impl<'a, AF: AddressFamily, T> Trie<'a, AF, T> {
    /// The prefix stored under the key `k`.
    pub open spec fn get(self, k: PrefixKey) -> Option<&'a Prefix<AF, T>> {
        self.0.find(0, k)
    }

    /// The keys of the stored prefixes.
    pub open spec fn keys(self) -> Set<PrefixKey> {
        Set::new(|k: PrefixKey| key_ok(k, AF::spec_bits()) && self.get(k).is_some())
    }

    /// Every prefix is stored where its bits lead, and the counters count the
    /// nodes below the root and the prefixes of every length.
    pub open spec fn wf(self) -> bool {
        &&& self.0.wf_at(0, 0)
        &&& self.1@.len() == AF::spec_bits() + 1
        &&& forall|l: int|
            0 <= l <= AF::spec_bits() ==> {
                &&& (#[trigger] self.1@[l]).level == l
                &&& self.1@[l].prefixes_num == self.0.prefixes_at(0, l as nat)
                &&& self.1@[l].nodes_num == if l == 0 {
                    0
                } else {
                    self.0.nodes_at(0, l as nat)
                }
            }
    }

    /// No counter is at its limit.
    pub open spec fn has_room(self) -> bool {
        forall|l: int|
            0 <= l < self.1@.len() ==> (#[trigger] self.1@[l]).nodes_num < u32::MAX && self.1@[l].prefixes_num
                < u32::MAX
    }

    /// `r` is what a lookup of `q` has to return: the stored prefix with the
    /// longest key that covers `q`.
    pub open spec fn is_longest_match(self, q: PrefixKey, r: Option<&'a Prefix<AF, T>>) -> bool {
        match r {
            Some(p) => self.get(p.key()) == Some(p) && longest_match(self.keys(), q) == Some(p.key()),
            None => longest_match(self.keys(), q).is_none(),
        }
    }

    /// Whether a counter is at its limit.
    pub fn is_full(&self) -> (r: bool)
        ensures
            r == !self.has_room(),
    {
        let mut level: usize = 0;
        while level < self.1.len()
            invariant
                level <= self.1@.len(),
                forall|l: int|
                    0 <= l < level ==> (#[trigger] self.1@[l]).nodes_num < u32::MAX && self.1@[l].prefixes_num
                        < u32::MAX,
            decreases self.1@.len() - level,
        {
            if self.1[level].nodes_num == u32::MAX || self.1[level].prefixes_num == u32::MAX {
                return true;
            }
            level += 1;
        }
        false
    }

    /// An empty trie, with all counters at zero.
    pub fn new() -> (r: Self)
        ensures
            r.wf(),
            r.has_room(),
            r.keys() == Set::<PrefixKey>::empty(),
            forall|l: int|
                0 <= l < r.1@.len() ==> (#[trigger] r.1@[l]).nodes_num == 0 && r.1@[l].prefixes_num == 0,
    {
        let mut stats: Vec<TrieLevelStats> = Vec::new();
        let bits = AF::bits();
        let mut level: u8 = 0;
        proof {
            AF::lemma_width();
        }
        while level <= bits
            invariant
                bits == AF::spec_bits(),
                bits <= 128,
                level <= bits + 1,
                stats@.len() == level,
                forall|l: int|
                    0 <= l < level ==> (#[trigger] stats@[l]).level == l && stats@[l].nodes_num == 0
                        && stats@[l].prefixes_num == 0,
            decreases bits + 1 - level,
        {
            stats.push(TrieLevelStats { level, nodes_num: 0, prefixes_num: 0 });
            level += 1;
        }
        let r = Trie(TrieNode::new(None), stats);
        proof {
            assert(r.keys() =~= Set::<PrefixKey>::empty());
        }
        r
    }

    /// Stores `pfx`. A prefix longer than the address is refused, and so is one
    /// whose network and length are stored already; neither changes the trie.
    /// No counter may be at its limit, which `is_full` tells.
    pub fn insert(&mut self, pfx: &'a Prefix<AF, T>) -> (r: Result<(), StoreError>)
        requires
            old(self).wf(),
            old(self).has_room(),
        ensures
            final(self).wf(),
            r.is_ok() ==> counted_insert(old(self).1@, final(self).1@, 0, pfx.len as int),
            match r {
                Ok(()) => pfx.valid() && !old(self).keys().contains(pfx.key()) && final(self).keys() == old(
                    self,
                ).keys().insert(pfx.key()) && forall|k: PrefixKey|
                    key_ok(k, AF::spec_bits()) ==> #[trigger] final(self).get(k) == if k == pfx.key() {
                        Some(pfx)
                    } else {
                        old(self).get(k)
                    },
                Err(e) => final(self).0 == old(self).0 && final(self).1@ == old(self).1@ && e == if pfx.valid() {
                    StoreError::Duplicate
                } else {
                    StoreError::InvalidPrefix
                } && (pfx.valid() ==> old(self).keys().contains(pfx.key())),
            },
    {
        if pfx.len > AF::bits() {
            return Err(StoreError::InvalidPrefix);
        }
        proof {
            pfx.net.lemma_family();
            lemma_prefix_bits_ends(pfx.net.value(), AF::spec_bits());
            lemma_prefix_bits_bound(pfx.net.value(), AF::spec_bits(), pfx.len as nat);
        }
        let r = self.0.insert_at(pfx, 0, &mut self.1);
        proof {
            assert forall|l: int| 0 <= l <= AF::spec_bits() implies {
                &&& (#[trigger] self.1@[l]).level == l
                &&& self.1@[l].prefixes_num == self.0.prefixes_at(0, l as nat)
                &&& self.1@[l].nodes_num == if l == 0 {
                    0
                } else {
                    self.0.nodes_at(0, l as nat)
                }
            } by {
                assert(old(self).1@[l].level == l);
                self.0.lemma_nodes_above(0, 0);
                old(self).0.lemma_nodes_above(0, 0);
            }
            if r.is_ok() {
                let key = pfx.key();
                assert(key_ok(key, AF::spec_bits()));
                assert(old(self).get(key).is_none());
                assert(!old(self).keys().contains(key));
                assert forall|k: PrefixKey| key_ok(k, AF::spec_bits()) implies #[trigger] self.get(k) == if k
                    == key {
                    Some(pfx)
                } else {
                    old(self).get(k)
                } by {
                    if same_from(k, key, 0) {
                        lemma_prefix_bits_ends(k.bits, k.len);
                        lemma_prefix_bits_ends(key.bits, key.len);
                        lemma_same_from(k, key, 0);
                    }
                    lemma_same_from_self(key, 0);
                }
                assert(self.get(key) == Some(pfx));
                assert forall|k: PrefixKey| self.keys().contains(k) <==> old(self).keys().insert(key).contains(k) by {
                    if key_ok(k, AF::spec_bits()) {
                        assert(self.get(k) == if k == key {
                            Some(pfx)
                        } else {
                            old(self).get(k)
                        });
                    }
                }
                assert(self.keys() =~= old(self).keys().insert(key));
            }
        }
        r
    }

    /// Looks up the most specific stored prefix that covers the query; nothing
    /// if none does or the query is longer than the address.
    pub fn match_longest_prefix(&self, search_pfx: &Prefix<AF, NoMeta>) -> (r: Option<&'a Prefix<AF, T>>)
        requires
            self.wf(),
        ensures
            search_pfx.valid() ==> self.is_longest_match(search_pfx.key(), r),
            !search_pfx.valid() ==> r.is_none(),
    {
        if search_pfx.len > AF::bits() {
            return None;
        }
        let ghost net = search_pfx.net.value();
        let ghost bits = AF::spec_bits();
        let ghost q = search_pfx.key();
        let ghost keys = self.keys();
        proof {
            search_pfx.net.lemma_family();
            lemma_prefix_bits_ends(net, bits);
            lemma_key_ancestor(net, bits, 0, search_pfx.len as nat);
            lemma2_to64();
        }
        let mut cursor = &self.0;
        let mut match_pfx: Option<&'a Prefix<AF, T>> = cursor.prefix;
        let mut depth: u8 = 0;
        let mut done = false;
        let ghost mut upto: nat = 0;
        while !done && depth < search_pfx.len
            invariant
                self.wf(),
                keys == self.keys(),
                bits == AF::spec_bits(),
                net == search_pfx.net.value(),
                net < pow2(bits),
                q == key_of(net, bits, search_pfx.len as nat),
                depth <= search_pfx.len <= bits,
                cursor.wf_at(depth as nat, prefix_bits(net, bits, depth as nat)),
                forall|l: nat|
                    depth <= l <= search_pfx.len ==> self.0.find(0, #[trigger] key_of(net, bits, l)) == cursor.find(
                        depth as nat,
                        key_of(net, bits, l),
                    ),
                !done ==> upto == depth,
                done ==> upto == search_pfx.len,
                match match_pfx {
                    Some(p) => self.get(p.key()) == Some(p) && longest_match_upto(keys, q, upto) == Some(p.key()),
                    None => longest_match_upto(keys, q, upto).is_none(),
                },
            decreases search_pfx.len - depth + (if done { 0int } else { 1int }),
        {
            let bit = AF::get_nibble(search_pfx.net, depth, 1);
            let next = if bit == 0 {
                &cursor.left
            } else {
                &cursor.right
            };
            proof {
                lemma2_to64();
                lemma_prefix_bits_split(net, bits, depth as nat, 1);
                assert forall|l: nat| depth < l <= search_pfx.len implies key_bit(
                    #[trigger] key_of(net, bits, l),
                    depth as nat,
                ) == bit by {
                    lemma_key_bit(net, bits, l, depth as nat);
                }
            }
            let ghost above = *cursor;
            match next {
                Some(child) => {
                    cursor = child;
                    depth += 1;
                    proof {
                        let k = key_of(net, bits, depth as nat);
                        above.lemma_step(*cursor, net, (depth - 1) as nat, bit as nat);
                        lemma_key_ancestor(net, bits, depth as nat, search_pfx.len as nat);
                        lemma_prefix_bits_bound(net, bits, depth as nat);
                        assert forall|l: nat| depth <= l <= search_pfx.len implies self.0.find(
                            0,
                            #[trigger] key_of(net, bits, l),
                        ) == cursor.find(depth as nat, key_of(net, bits, l)) by {
                            let kl = key_of(net, bits, l);
                            assert(key_bit(kl, (depth - 1) as nat) == bit);
                            assert(self.0.find(0, kl) == above.find((depth - 1) as nat, kl));
                        }
                        assert(self.0.find(0, k) == cursor.prefix);
                        assert(keys.contains(k) <==> cursor.prefix.is_some());
                        assert(ancestor(q, depth as nat) == k);
                        assert(longest_match_upto(keys, q, depth as nat) == if keys.contains(k) {
                            Some(k)
                        } else {
                            longest_match_upto(keys, q, (depth - 1) as nat)
                        });
                        upto = depth as nat;
                    }
                    match cursor.prefix {
                        Some(p) => {
                            match_pfx = Some(p);
                        },
                        None => {},
                    }
                },
                None => {
                    proof {
                        assert forall|l: nat| depth < l <= search_pfx.len implies !keys.contains(
                            #[trigger] ancestor(q, l),
                        ) by {
                            lemma_key_ancestor(net, bits, l, search_pfx.len as nat);
                            assert(self.0.find(0, key_of(net, bits, l)).is_none());
                        }
                        crate::lpm::lemma_no_longer_match(keys, q, depth as nat, search_pfx.len as nat);
                        upto = search_pfx.len as nat;
                    }
                    done = true;
                },
            }
        }
        match_pfx
    }
}

} // verus!
