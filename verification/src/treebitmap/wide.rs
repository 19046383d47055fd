//! Bitmaps wider than a machine word, for strides of 7 and 8 bits.
//!
//! A wide bitmap is a row of 128-bit lanes, the most significant lane first.
//! Bit position `i` of the bitmap is bit `i % 128` of the lane that is
//! `i / 128` places from the last one.

use vstd::prelude::*;
use vstd::arithmetic::power2::lemma2_to64;
use crate::bitset::{count_in, rank, lemma_count_member, lemma_count_shifted, lemma_count_split};
use crate::error::StoreError;
use crate::treebitmap::stride::{Stride, slot_number, lemma_slot_pos};
use crate::word::{
    bit_set, bits_of, leading_zeros_u128, lemma_bits_or_and, lemma_bits_shl_one, lemma_bits_shl_top,
    lemma_bits_shr, lemma_bits_single, lemma_bits_zero_one, lemma_nonzero_has_bit,
    lemma_ones_below_is_count, lemma_ones_bound, lemma_shifted_ones_is_count,
};

verus! {

/// A bitmap of 256 bits: the high lane, then the low lane.
#[derive(Debug, Clone, Copy, PartialEq, Eq, PartialOrd, Ord, Structural)]
pub struct U256(pub u128, pub u128);

/// A bitmap of 512 bits: four lanes, the most significant first.
#[derive(Debug, Clone, Copy, PartialEq, Eq, PartialOrd, Ord, Structural)]
pub struct U512(pub u128, pub u128, pub u128, pub u128);

/// The lanes of a bitmap count like the words they are.
pub proof fn lemma_count_lane(s: Set<nat>, x: u128, off: nat, lo: nat, hi: nat)
    requires
        lo <= hi <= 128,
        forall|i: nat| i < 128 ==> (#[trigger] bit_set(x, i) <==> s.contains(i + off)),
    ensures
        count_in(s, lo + off, hi + off) == count_in(bits_of(x), lo, hi),
{
    assert forall|i: nat| lo <= i < hi implies (#[trigger] bits_of(x).contains(i) <==> s.contains(i + off)) by {
        assert(bit_set(x, i) <==> s.contains(i + off));
    }
    lemma_count_shifted(s, bits_of(x), off, lo, hi);
}

impl U256 {
    /// The positions at which the bitmap holds a one.
    pub open spec fn lane_bits(self) -> Set<nat> {
        Set::new(
            |i: nat|
                if i < 128 {
                    bit_set(self.1, i)
                } else {
                    bit_set(self.0, (i - 128) as nat)
                },
        )
    }

    /// The bitmap that holds bit `pos` alone.
    pub fn single(pos: u32) -> (r: U256)
        requires
            pos < 256,
        ensures
            r.lane_bits() == set![pos as nat],
    {
        proof {
            lemma_bits_zero_one();
        }
        let r = if pos < 128 {
            proof {
                lemma_bits_single(pos as nat);
            }
            U256(0, 1u128 << pos)
        } else {
            proof {
                lemma_bits_single((pos - 128) as nat);
            }
            U256(1u128 << (pos - 128), 0)
        };
        proof {
            assert forall|i: nat| r.lane_bits().contains(i) <==> i == pos by {
                if i < 128 {
                    assert(bits_of(r.1).contains(i) <==> bit_set(r.1, i));
                } else {
                    assert(bits_of(r.0).contains((i - 128) as nat) <==> bit_set(r.0, (i - 128) as nat));
                }
            }
            assert(r.lane_bits() =~= set![pos as nat]);
        }
        r
    }

    /// Whether bit `pos` is set, and if so how many ones stand above it.
    pub fn rank_at(self, pos: u32) -> (r: Result<usize, StoreError>)
        requires
            pos < 256,
        ensures
            match r {
                Ok(i) => self.lane_bits().contains(pos as nat) && i == rank(self.lane_bits(), pos as nat, 256),
                Err(e) => e == StoreError::EmptySlot && !self.lane_bits().contains(pos as nat),
            },
    {
        let ghost s = self.lane_bits();
        proof {
            lemma_count_lane(s, self.0, 128, 0, 128);
            lemma_ones_below_is_count(self.0, 128);
            lemma_ones_bound(self.0, 128);
        }
        if pos < 128 {
            if (self.1 >> pos) & 1 == 1 {
                proof {
                    lemma_ones_bound(self.1 >> pos, 128);
                }
                let ones = self.0.count_ones() + (self.1 >> pos).count_ones();
                proof {
                    lemma_shifted_ones_is_count(self.1, pos as nat, 128);
                    lemma_count_lane(s, self.1, 0, pos as nat, 128);
                    lemma_count_split(s, pos as nat, 128, 256);
                    lemma_count_member(s, pos as nat, 256, pos as nat);
                }
                Ok((ones - 1) as usize)
            } else {
                Err(StoreError::EmptySlot)
            }
        } else {
            let p = pos - 128;
            if (self.0 >> p) & 1 == 1 {
                let ones = (self.0 >> p).count_ones();
                proof {
                    lemma_shifted_ones_is_count(self.0, p as nat, 128);
                    lemma_count_lane(s, self.0, 128, p as nat, 128);
                    lemma_count_member(s, pos as nat, 256, pos as nat);
                }
                Ok((ones - 1) as usize)
            } else {
                Err(StoreError::EmptySlot)
            }
        }
    }
}

impl U512 {
    /// The positions at which the bitmap holds a one.
    pub open spec fn lane_bits(self) -> Set<nat> {
        Set::new(
            |i: nat|
                if i < 128 {
                    bit_set(self.3, i)
                } else if i < 256 {
                    bit_set(self.2, (i - 128) as nat)
                } else if i < 384 {
                    bit_set(self.1, (i - 256) as nat)
                } else {
                    bit_set(self.0, (i - 384) as nat)
                },
        )
    }

    /// The bitmap that holds bit `pos` alone.
    pub fn single(pos: u32) -> (r: U512)
        requires
            pos < 512,
        ensures
            r.lane_bits() == set![pos as nat],
    {
        proof {
            lemma_bits_zero_one();
            lemma_bits_single((pos % 128) as nat);
        }
        let bit = 1u128 << (pos % 128);
        let r = if pos < 128 {
            U512(0, 0, 0, bit)
        } else if pos < 256 {
            U512(0, 0, bit, 0)
        } else if pos < 384 {
            U512(0, bit, 0, 0)
        } else {
            U512(bit, 0, 0, 0)
        };
        proof {
            assert forall|i: nat| r.lane_bits().contains(i) <==> i == pos by {
                assert(bits_of(bit).contains(i % 128) <==> bit_set(bit, i % 128));
                assert(bits_of(0).contains(i % 128) <==> bit_set(0, i % 128));
            }
            assert(r.lane_bits() =~= set![pos as nat]);
        }
        r
    }

    /// Whether bit `pos` is set, and if so how many ones stand above it.
    pub fn rank_at(self, pos: u32) -> (r: Result<usize, StoreError>)
        requires
            pos < 512,
        ensures
            match r {
                Ok(i) => self.lane_bits().contains(pos as nat) && i == rank(self.lane_bits(), pos as nat, 512),
                Err(e) => e == StoreError::EmptySlot && !self.lane_bits().contains(pos as nat),
            },
    {
        let ghost s = self.lane_bits();
        proof {
            lemma_count_lane(s, self.0, 384, 0, 128);
            lemma_count_lane(s, self.1, 256, 0, 128);
            lemma_count_lane(s, self.2, 128, 0, 128);
            lemma_ones_below_is_count(self.0, 128);
            lemma_ones_below_is_count(self.1, 128);
            lemma_ones_below_is_count(self.2, 128);
            lemma_count_split(s, 128, 256, 512);
            lemma_count_split(s, 256, 384, 512);
            lemma_ones_bound(self.0, 128);
            lemma_ones_bound(self.1, 128);
            lemma_ones_bound(self.2, 128);
        }
        let p = pos % 128;
        let lane = if pos < 128 {
            self.3
        } else if pos < 256 {
            self.2
        } else if pos < 384 {
            self.1
        } else {
            self.0
        };
        if (lane >> p) & 1 == 1 {
            let here = (lane >> p).count_ones();
            proof {
                lemma_shifted_ones_is_count(lane, p as nat, 128);
                lemma_ones_bound(lane >> p, 128);
                lemma_count_member(s, pos as nat, 512, pos as nat);
            }
            let above = if pos < 128 {
                proof {
                    lemma_count_lane(s, self.3, 0, p as nat, 128);
                    lemma_count_split(s, pos as nat, 128, 512);
                }
                self.0.count_ones() + self.1.count_ones() + self.2.count_ones()
            } else if pos < 256 {
                proof {
                    lemma_count_lane(s, self.2, 128, p as nat, 128);
                    lemma_count_split(s, pos as nat, 256, 512);
                }
                self.0.count_ones() + self.1.count_ones()
            } else if pos < 384 {
                proof {
                    lemma_count_lane(s, self.1, 256, p as nat, 128);
                    lemma_count_split(s, pos as nat, 384, 512);
                }
                self.0.count_ones()
            } else {
                proof {
                    lemma_count_lane(s, self.0, 384, p as nat, 128);
                }
                0
            };
            Ok((above + here - 1) as usize)
        } else {
            Err(StoreError::EmptySlot)
        }
    }
}

impl Stride for U256 {
    type PtrSize = u128;

    open spec fn spec_stride_len() -> nat {
        7
    }

    open spec fn bits(self) -> Set<nat> {
        self.lane_bits()
    }

    open spec fn ptr_bits(ptr: u128) -> Set<nat> {
        bits_of(ptr)
    }

    proof fn lemma_stride_len() {
    }

    proof fn lemma_bits_below(self) {
        lemma2_to64();
    }

    proof fn lemma_ptr_bits_below(ptr: u128) {
        lemma2_to64();
    }

    fn stride_len() -> (r: u8) {
        7
    }

    fn get_bit_pos(nibble: u32, len: u8) -> (r: U256) {
        proof {
            lemma2_to64();
            lemma_slot_pos(7, nibble as nat, len as nat);
        }
        U256::single(255 - slot_number(nibble, len))
    }

    fn get_pfx_index(bitmap: U256, nibble: u32, len: u8) -> (r: Result<usize, StoreError>) {
        proof {
            lemma2_to64();
            lemma_slot_pos(7, nibble as nat, len as nat);
        }
        bitmap.rank_at(255 - slot_number(nibble, len))
    }

    fn get_ptr_index(bitmap: u128, nibble: u32) -> (r: Result<usize, StoreError>) {
        proof {
            lemma2_to64();
        }
        let pos: u32 = 127 - nibble;
        proof {
            lemma_shifted_ones_is_count(bitmap, pos as nat, 128);
        }
        if (bitmap >> pos) & 1 == 1 {
            let ones = (bitmap >> pos).count_ones();
            proof {
                lemma_count_member(bits_of(bitmap), pos as nat, 128, pos as nat);
                lemma_ones_bound(bitmap >> pos, 128);
            }
            Ok((ones - 1) as usize)
        } else {
            Err(StoreError::EmptySlot)
        }
    }

    fn into_stride_size(bitmap: u128) -> (r: U256) {
        let r = U256(bitmap >> 127, bitmap << 1);
        proof {
            lemma_bits_shl_one(bitmap);
            lemma_bits_shr(bitmap, 127);
            assert forall|i: nat| #[trigger] r.bits().contains(i) <==> (i >= 1 && bits_of(bitmap).contains((i - 1) as nat)) by {
                if i < 128 {
                    assert(bits_of(bitmap << 1).contains(i) <==> bit_set(bitmap << 1, i));
                } else {
                    let j = (i - 128) as nat;
                    assert(bits_of(bitmap >> 127).contains(j) <==> bit_set(bitmap >> 127, j));
                }
            }
        }
        r
    }

    fn into_ptrbitarr_size(bitmap: U256) -> (r: u128) {
        let r = (bitmap.0 << 127) | (bitmap.1 >> 1);
        proof {
            lemma2_to64();
            lemma_bits_or_and(bitmap.0 << 127, bitmap.1 >> 1);
            lemma_bits_shl_top(bitmap.0);
            lemma_bits_shr(bitmap.1, 1);
            assert forall|i: nat| #[trigger] bits_of(r).contains(i) <==> (i < 128 && bitmap.bits().contains(i + 1)) by {
                assert(bits_of(bitmap.0 << 127).contains(i) <==> (i == 127 && bits_of(bitmap.0).contains(0)));
                assert(bits_of(bitmap.1 >> 1).contains(i) <==> bits_of(bitmap.1).contains(i + 1));
            }
        }
        r
    }

    fn zero() -> (r: U256) {
        proof {
            lemma_bits_zero_one();
            assert(U256(0, 0).lane_bits() =~= Set::<nat>::empty()) by {
                assert forall|i: nat| !U256(0, 0).lane_bits().contains(i) by {
                    assert(!bits_of(0).contains(i % 128));
                }
            }
        }
        U256(0, 0)
    }

    fn one() -> (r: U256) {
        proof {
            lemma_bits_zero_one();
            assert(U256(0, 1).lane_bits() =~= set![0nat]) by {
                assert forall|i: nat| U256(0, 1).lane_bits().contains(i) <==> i == 0 by {
                    assert(!bits_of(0).contains(i % 128));
                    assert(bits_of(1).contains(i % 128) <==> i % 128 == 0);
                }
            }
        }
        U256(0, 1)
    }

    fn leading_zeros(self) -> (r: u32) {
        proof {
            lemma2_to64();
        }
        let lz = leading_zeros_u128(self.0);
        if lz == 128 {
            lz + leading_zeros_u128(self.1)
        } else {
            lz
        }
    }

    fn bitor(self, rhs: U256) -> (r: U256) {
        let r = U256(self.0 | rhs.0, self.1 | rhs.1);
        proof {
            lemma_bits_or_and(self.0, rhs.0);
            lemma_bits_or_and(self.1, rhs.1);
            assert forall|i: nat| r.bits().contains(i) <==> self.bits().union(rhs.bits()).contains(i) by {
                assert(bits_of(r.0).contains((i - 128) as nat) <==> bit_set(r.0, (i - 128) as nat));
                assert(bits_of(r.1).contains(i) <==> bit_set(r.1, i));
            }
            assert(r.bits() =~= self.bits().union(rhs.bits()));
        }
        r
    }

    fn bitand(self, rhs: U256) -> (r: U256) {
        let r = U256(self.0 & rhs.0, self.1 & rhs.1);
        proof {
            lemma_bits_or_and(self.0, rhs.0);
            lemma_bits_or_and(self.1, rhs.1);
            assert forall|i: nat| r.bits().contains(i) <==> self.bits().intersect(rhs.bits()).contains(i) by {
                assert(bits_of(r.0).contains((i - 128) as nat) <==> bit_set(r.0, (i - 128) as nat));
                assert(bits_of(r.1).contains(i) <==> bit_set(r.1, i));
            }
            assert(r.bits() =~= self.bits().intersect(rhs.bits()));
        }
        r
    }

    fn is_zero(self) -> (r: bool) {
        proof {
            lemma_bits_zero_one();
            if self.0 != 0 {
                lemma_nonzero_has_bit(self.0);
                let i = choose|i: nat| bits_of(self.0).contains(i);
                assert(self.lane_bits().contains(i + 128));
            }
            if self.1 != 0 {
                lemma_nonzero_has_bit(self.1);
                let i = choose|i: nat| bits_of(self.1).contains(i);
                assert(self.lane_bits().contains(i));
            }
            if self.0 == 0 && self.1 == 0 {
                assert forall|i: nat| !self.lane_bits().contains(i) by {
                    assert(!bits_of(0).contains(i % 128));
                }
                assert(self.lane_bits() =~= Set::<nat>::empty());
            }
        }
        self.0 == 0 && self.1 == 0
    }
}

impl Stride for U512 {
    type PtrSize = U256;

    open spec fn spec_stride_len() -> nat {
        8
    }

    open spec fn bits(self) -> Set<nat> {
        self.lane_bits()
    }

    open spec fn ptr_bits(ptr: U256) -> Set<nat> {
        ptr.lane_bits()
    }

    proof fn lemma_stride_len() {
    }

    proof fn lemma_bits_below(self) {
        lemma2_to64();
    }

    proof fn lemma_ptr_bits_below(ptr: U256) {
        lemma2_to64();
    }

    fn stride_len() -> (r: u8) {
        8
    }

    fn get_bit_pos(nibble: u32, len: u8) -> (r: U512) {
        proof {
            lemma2_to64();
            lemma_slot_pos(8, nibble as nat, len as nat);
        }
        U512::single(511 - slot_number(nibble, len))
    }

    fn get_pfx_index(bitmap: U512, nibble: u32, len: u8) -> (r: Result<usize, StoreError>) {
        proof {
            lemma2_to64();
            lemma_slot_pos(8, nibble as nat, len as nat);
        }
        bitmap.rank_at(511 - slot_number(nibble, len))
    }

    fn get_ptr_index(bitmap: U256, nibble: u32) -> (r: Result<usize, StoreError>) {
        proof {
            lemma2_to64();
        }
        bitmap.rank_at(255 - nibble)
    }

    fn into_stride_size(bitmap: U256) -> (r: U512) {
        let r = U512(0, bitmap.0 >> 127, (bitmap.0 << 1) | (bitmap.1 >> 127), bitmap.1 << 1);
        proof {
            lemma_bits_zero_one();
            lemma_bits_shl_one(bitmap.0);
            lemma_bits_shl_one(bitmap.1);
            lemma_bits_shr(bitmap.0, 127);
            lemma_bits_shr(bitmap.1, 127);
            lemma_bits_or_and(bitmap.0 << 1, bitmap.1 >> 127);
            assert forall|i: nat| #[trigger] r.bits().contains(i) <==> (i >= 1 && bitmap.lane_bits().contains((i - 1) as nat)) by {
                let j = i % 128;
                assert(bits_of(0).contains(j) <==> bit_set(0, j));
                assert(bits_of(bitmap.0 >> 127).contains(j) <==> bits_of(bitmap.0).contains(j + 127));
                assert(bits_of(bitmap.1 >> 127).contains(j) <==> bits_of(bitmap.1).contains(j + 127));
                assert(bits_of(bitmap.0 << 1).contains(j) <==> (1 <= j < 128 && bits_of(bitmap.0).contains((j - 1) as nat)));
                assert(bits_of(bitmap.1 << 1).contains(j) <==> (1 <= j < 128 && bits_of(bitmap.1).contains((j - 1) as nat)));
                assert(bits_of(r.2).contains(j) <==> bit_set(r.2, j));
            }
        }
        r
    }

    fn into_ptrbitarr_size(bitmap: U512) -> (r: U256) {
        let r = U256((bitmap.1 << 127) | (bitmap.2 >> 1), (bitmap.2 << 127) | (bitmap.3 >> 1));
        proof {
            lemma2_to64();
            lemma_bits_or_and(bitmap.1 << 127, bitmap.2 >> 1);
            lemma_bits_or_and(bitmap.2 << 127, bitmap.3 >> 1);
            lemma_bits_shl_top(bitmap.1);
            lemma_bits_shl_top(bitmap.2);
            lemma_bits_shr(bitmap.2, 1);
            lemma_bits_shr(bitmap.3, 1);
            assert forall|i: nat| #[trigger] r.lane_bits().contains(i) <==> (i < 256 && bitmap.bits().contains(i + 1)) by {
                let j = i % 128;
                assert(bits_of(r.0).contains(j) <==> bit_set(r.0, j));
                assert(bits_of(r.1).contains(j) <==> bit_set(r.1, j));
                assert(bits_of(bitmap.1 << 127).contains(j) <==> (j == 127 && bits_of(bitmap.1).contains(0)));
                assert(bits_of(bitmap.2 << 127).contains(j) <==> (j == 127 && bits_of(bitmap.2).contains(0)));
                assert(bits_of(bitmap.2 >> 1).contains(j) <==> bits_of(bitmap.2).contains(j + 1));
                assert(bits_of(bitmap.3 >> 1).contains(j) <==> bits_of(bitmap.3).contains(j + 1));
            }
        }
        r
    }

    fn zero() -> (r: U512) {
        proof {
            lemma_bits_zero_one();
            assert(U512(0, 0, 0, 0).lane_bits() =~= Set::<nat>::empty()) by {
                assert forall|i: nat| !U512(0, 0, 0, 0).lane_bits().contains(i) by {
                    assert(!bits_of(0).contains(i % 128));
                }
            }
        }
        U512(0, 0, 0, 0)
    }

    fn one() -> (r: U512) {
        proof {
            lemma_bits_zero_one();
            assert(U512(0, 0, 0, 1).lane_bits() =~= set![0nat]) by {
                assert forall|i: nat| U512(0, 0, 0, 1).lane_bits().contains(i) <==> i == 0 by {
                    assert(!bits_of(0).contains(i % 128));
                    assert(bits_of(1).contains(i % 128) <==> i % 128 == 0);
                }
            }
        }
        U512(0, 0, 0, 1)
    }

    fn leading_zeros(self) -> (r: u32) {
        proof {
            lemma2_to64();
        }
        let mut lz = leading_zeros_u128(self.0);
        if lz == 128 {
            lz += leading_zeros_u128(self.1);
            if lz == 256 {
                lz += leading_zeros_u128(self.2);
                if lz == 384 {
                    lz += leading_zeros_u128(self.3);
                }
            }
        }
        lz
    }

    fn bitor(self, rhs: U512) -> (r: U512) {
        let r = U512(self.0 | rhs.0, self.1 | rhs.1, self.2 | rhs.2, self.3 | rhs.3);
        proof {
            lemma_bits_or_and(self.0, rhs.0);
            lemma_bits_or_and(self.1, rhs.1);
            lemma_bits_or_and(self.2, rhs.2);
            lemma_bits_or_and(self.3, rhs.3);
            assert forall|i: nat| r.bits().contains(i) <==> self.bits().union(rhs.bits()).contains(i) by {
                let j = i % 128;
                assert(bits_of(r.0).contains(j) <==> bit_set(r.0, j));
                assert(bits_of(r.1).contains(j) <==> bit_set(r.1, j));
                assert(bits_of(r.2).contains(j) <==> bit_set(r.2, j));
                assert(bits_of(r.3).contains(j) <==> bit_set(r.3, j));
            }
            assert(r.bits() =~= self.bits().union(rhs.bits()));
        }
        r
    }

    fn bitand(self, rhs: U512) -> (r: U512) {
        let r = U512(self.0 & rhs.0, self.1 & rhs.1, self.2 & rhs.2, self.3 & rhs.3);
        proof {
            lemma_bits_or_and(self.0, rhs.0);
            lemma_bits_or_and(self.1, rhs.1);
            lemma_bits_or_and(self.2, rhs.2);
            lemma_bits_or_and(self.3, rhs.3);
            assert forall|i: nat| r.bits().contains(i) <==> self.bits().intersect(rhs.bits()).contains(i) by {
                let j = i % 128;
                assert(bits_of(r.0).contains(j) <==> bit_set(r.0, j));
                assert(bits_of(r.1).contains(j) <==> bit_set(r.1, j));
                assert(bits_of(r.2).contains(j) <==> bit_set(r.2, j));
                assert(bits_of(r.3).contains(j) <==> bit_set(r.3, j));
            }
            assert(r.bits() =~= self.bits().intersect(rhs.bits()));
        }
        r
    }

    fn is_zero(self) -> (r: bool) {
        proof {
            lemma_bits_zero_one();
            if self.0 != 0 {
                lemma_nonzero_has_bit(self.0);
                let i = choose|i: nat| bits_of(self.0).contains(i);
                assert(self.lane_bits().contains(i + 384));
            }
            if self.1 != 0 {
                lemma_nonzero_has_bit(self.1);
                let i = choose|i: nat| bits_of(self.1).contains(i);
                assert(self.lane_bits().contains(i + 256));
            }
            if self.2 != 0 {
                lemma_nonzero_has_bit(self.2);
                let i = choose|i: nat| bits_of(self.2).contains(i);
                assert(self.lane_bits().contains(i + 128));
            }
            if self.3 != 0 {
                lemma_nonzero_has_bit(self.3);
                let i = choose|i: nat| bits_of(self.3).contains(i);
                assert(self.lane_bits().contains(i));
            }
            if self.0 == 0 && self.1 == 0 && self.2 == 0 && self.3 == 0 {
                assert forall|i: nat| !self.lane_bits().contains(i) by {
                    assert(!bits_of(0).contains(i % 128));
                }
                assert(self.lane_bits() =~= Set::<nat>::empty());
            }
        }
        self.0 == 0 && self.1 == 0 && self.2 == 0 && self.3 == 0
    }
}

} // verus!
