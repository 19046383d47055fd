//! Bitmaps of one tree level ("stride") and their index arithmetic.
//!
//! A stride of `s` address bits has a prefix bitmap of `2^(s+1)` bits and a
//! pointer bitmap of `2^s` bits. In the prefix bitmap the slot of the nibble
//! `(len, value)` is numbered `2^len - 1 + value`, and slot `k` sits at bit
//! position `2^(s+1) - 1 - k`, so that shorter nibbles take the higher bits.

use vstd::prelude::*;
use vstd::arithmetic::power2::{pow2, lemma2_to64};
use crate::bitset::{below, rank, lemma_count_bound, lemma_rank_in_range};
use crate::error::StoreError;
use crate::word::{
    bits_of, leading_zeros_u128, low_bits, lemma_and_one, lemma_bits_low, lemma_bits_narrow, lemma_bits_or_and, lemma_bits_shl_one,
    lemma_bits_shr, lemma_bits_single, lemma_bits_zero_one, lemma_nonzero_has_bit,
    lemma_shifted_ones_is_count,
};

verus! {

/// Width in bits of the prefix bitmap of a stride of `s` address bits.
pub open spec fn pfx_width(s: nat) -> nat {
    pow2(s + 1)
}

/// Width in bits of the pointer bitmap of a stride of `s` address bits.
pub open spec fn ptr_width(s: nat) -> nat {
    pow2(s)
}

/// `(nibble, len)` names a slot of a stride of `s` bits.
pub open spec fn valid_slot(s: nat, nibble: nat, len: nat) -> bool {
    len <= s && nibble < pow2(len)
}

/// Number of the slot of `(nibble, len)`, counted from the empty nibble.
pub open spec fn slot_id(nibble: nat, len: nat) -> nat {
    (pow2(len) - 1 + nibble) as nat
}

/// Bit position of the slot of `(nibble, len)` in the prefix bitmap.
pub open spec fn slot_pos(s: nat, nibble: nat, len: nat) -> nat {
    (pfx_width(s) - 1 - slot_id(nibble, len)) as nat
}

/// Bit position of the child of the full nibble `nibble` in the pointer bitmap.
pub open spec fn child_pos(s: nat, nibble: nat) -> nat {
    (ptr_width(s) - 1 - nibble) as nat
}

/// Slot positions lie inside the prefix bitmap, above bit 0; the slot of a full
/// nibble lies one above the position of its child in the pointer bitmap.
pub proof fn lemma_slot_pos(s: nat, nibble: nat, len: nat)
    requires
        valid_slot(s, nibble, len),
    ensures
        1 <= slot_pos(s, nibble, len) < pfx_width(s),
        slot_pos(s, nibble, len) + slot_id(nibble, len) + 1 == pfx_width(s),
        len == s ==> slot_pos(s, nibble, len) == child_pos(s, nibble) + 1,
        len == s ==> child_pos(s, nibble) < ptr_width(s),
        len < s ==> slot_pos(s, nibble, len) > ptr_width(s),
{
    vstd::arithmetic::power2::lemma_pow2_unfold(s + 1);
    vstd::arithmetic::power2::lemma_pow2_pos(len);
    if len < s {
        vstd::arithmetic::power2::lemma_pow2_strictly_increases(len, s);
        vstd::arithmetic::power2::lemma_pow2_unfold(len + 1);
        if len + 1 < s {
            vstd::arithmetic::power2::lemma_pow2_strictly_increases(len + 1, s);
        }
    }
}

/// Computes the slot number of `(nibble, len)`.
pub fn slot_number(nibble: u32, len: u8) -> (r: u32)
    requires
        len <= 8,
        nibble < pow2(len as nat),
    ensures
        r == slot_id(nibble as nat, len as nat),
        r <= 510,
{
    proof {
        lemma2_to64();
        vstd::bits::lemma_u32_shl_is_mul(1, len as u32);
    }
    ((1u32 << len) - 1) + nibble
}

/// A bitmap type of one stride width, with the pointer bitmap type that goes with it.
pub trait Stride: Sized + Copy {
    /// The pointer bitmap, half as wide.
    type PtrSize: Copy;

    /// Number of address bits that the stride consumes.
    spec fn spec_stride_len() -> nat;

    /// The positions at which the prefix bitmap holds a one.
    spec fn bits(self) -> Set<nat>;

    /// The positions at which the pointer bitmap holds a one.
    spec fn ptr_bits(ptr: Self::PtrSize) -> Set<nat>;

    proof fn lemma_stride_len()
        ensures
            3 <= Self::spec_stride_len() <= 8,
    ;

    proof fn lemma_bits_below(self)
        ensures
            below(self.bits(), pfx_width(Self::spec_stride_len())),
    ;

    proof fn lemma_ptr_bits_below(ptr: Self::PtrSize)
        ensures
            below(Self::ptr_bits(ptr), ptr_width(Self::spec_stride_len())),
    ;

    fn stride_len() -> (r: u8)
        ensures
            r == Self::spec_stride_len(),
    ;

    /// The bitmap that holds the slot of `(nibble, len)` and nothing else.
    fn get_bit_pos(nibble: u32, len: u8) -> (r: Self)
        requires
            valid_slot(Self::spec_stride_len(), nibble as nat, len as nat),
        ensures
            r.bits() == set![slot_pos(Self::spec_stride_len(), nibble as nat, len as nat)],
    ;

    /// Index in the prefix vector of the entry of slot `(nibble, len)`:
    /// the number of ones at or above the slot's position, less one.
    fn get_pfx_index(bitmap: Self, nibble: u32, len: u8) -> (r: Result<usize, StoreError>)
        requires
            valid_slot(Self::spec_stride_len(), nibble as nat, len as nat),
        ensures
            match r {
                Ok(i) => bitmap.bits().contains(slot_pos(Self::spec_stride_len(), nibble as nat, len as nat))
                    && i == rank(
                    bitmap.bits(),
                    slot_pos(Self::spec_stride_len(), nibble as nat, len as nat),
                    pfx_width(Self::spec_stride_len()),
                ),
                Err(e) => e == StoreError::EmptySlot && !bitmap.bits().contains(
                    slot_pos(Self::spec_stride_len(), nibble as nat, len as nat),
                ),
            },
    ;

    /// Index in the pointer vector of the child of the full nibble `nibble`.
    fn get_ptr_index(bitmap: Self::PtrSize, nibble: u32) -> (r: Result<usize, StoreError>)
        requires
            nibble < ptr_width(Self::spec_stride_len()),
        ensures
            match r {
                Ok(i) => Self::ptr_bits(bitmap).contains(child_pos(Self::spec_stride_len(), nibble as nat))
                    && i == rank(
                    Self::ptr_bits(bitmap),
                    child_pos(Self::spec_stride_len(), nibble as nat),
                    ptr_width(Self::spec_stride_len()),
                ),
                Err(e) => e == StoreError::EmptySlot && !Self::ptr_bits(bitmap).contains(
                    child_pos(Self::spec_stride_len(), nibble as nat),
                ),
            },
    ;

    /// The pointer bitmap as a prefix bitmap: every bit one position up.
    fn into_stride_size(bitmap: Self::PtrSize) -> (r: Self)
        ensures
            forall|i: nat| #[trigger]
                r.bits().contains(i) <==> (i >= 1 && Self::ptr_bits(bitmap).contains((i - 1) as nat)),
    ;

    /// The lower half of a prefix bitmap as a pointer bitmap: every bit one position down.
    fn into_ptrbitarr_size(bitmap: Self) -> (r: Self::PtrSize)
        ensures
            forall|i: nat| #[trigger]
                Self::ptr_bits(r).contains(i) <==> (i < ptr_width(Self::spec_stride_len())
                    && bitmap.bits().contains(i + 1)),
    ;

    fn zero() -> (r: Self)
        ensures
            r.bits() == Set::<nat>::empty(),
    ;

    fn one() -> (r: Self)
        ensures
            r.bits() == set![0nat],
    ;

    /// Number of zero bits above the highest one; the whole width for the empty bitmap.
    fn leading_zeros(self) -> (r: u32)
        ensures
            r <= pfx_width(Self::spec_stride_len()),
            forall|i: nat| pfx_width(Self::spec_stride_len()) - r <= i ==> !self.bits().contains(i),
            r < pfx_width(Self::spec_stride_len()) ==> self.bits().contains(
                (pfx_width(Self::spec_stride_len()) - 1 - r) as nat,
            ),
    ;

    fn bitor(self, rhs: Self) -> (r: Self)
        ensures
            r.bits() == self.bits().union(rhs.bits()),
    ;

    fn bitand(self, rhs: Self) -> (r: Self)
        ensures
            r.bits() == self.bits().intersect(rhs.bits()),
    ;

    fn is_zero(self) -> (r: bool)
        ensures
            r <==> self.bits() == Set::<nat>::empty(),
    ;
}

proof fn bv_u16(x: u16, b: u8, p: u16)
    by (bit_vector)
    requires
        p < 16,
    ensures
        (1u16 << p) as u128 == 1u128 << (p as u128),
        (((x >> 1) as u8) as u128) == ((x as u128) >> 1) & 0xff,
        ((b as u16) << 1) as u128 == (b as u128) << 1,
{
}

impl Stride for u16 {
    type PtrSize = u8;

    open spec fn spec_stride_len() -> nat {
        3
    }

    open spec fn bits(self) -> Set<nat> {
        bits_of(self as u128)
    }

    open spec fn ptr_bits(ptr: u8) -> Set<nat> {
        bits_of(ptr as u128)
    }

    proof fn lemma_stride_len() {
    }

    proof fn lemma_bits_below(self) {
        lemma2_to64();
        lemma_bits_narrow(self as u128, 16);
    }

    proof fn lemma_ptr_bits_below(ptr: u8) {
        lemma2_to64();
        lemma_bits_narrow(ptr as u128, 8);
    }

    fn stride_len() -> (r: u8) {
        3
    }

    fn get_bit_pos(nibble: u32, len: u8) -> (r: u16) {
        proof {
            lemma2_to64();
            lemma_slot_pos(3, nibble as nat, len as nat);
        }
        let pos: u32 = 15 - slot_number(nibble, len);
        proof {
            bv_u16(0, 0, pos as u16);
            lemma_bits_single(pos as nat);
        }
        1u16 << pos
    }

    fn get_pfx_index(bitmap: u16, nibble: u32, len: u8) -> (r: Result<usize, StoreError>) {
        proof {
            lemma2_to64();
            lemma_slot_pos(3, nibble as nat, len as nat);
        }
        let pos: u32 = 15 - slot_number(nibble, len);
        proof {
            bitmap.lemma_bits_below();
            lemma_shifted_ones_is_count(bitmap as u128, pos as nat, 16);
        }
        if (bitmap >> pos) & 1 == 1 {
            let ones = (bitmap >> pos).count_ones();
            proof {
                lemma_rank_in_range(bitmap.bits(), pos as nat, 16);
                lemma_count_bound(bitmap.bits(), 0, 16);
            }
            Ok((ones - 1) as usize)
        } else {
            Err(StoreError::EmptySlot)
        }
    }

    fn get_ptr_index(bitmap: u8, nibble: u32) -> (r: Result<usize, StoreError>) {
        proof {
            lemma2_to64();
        }
        let pos: u32 = 7 - nibble;
        proof {
            Self::lemma_ptr_bits_below(bitmap);
            lemma_shifted_ones_is_count(bitmap as u128, pos as nat, 8);
        }
        if (bitmap >> pos) & 1 == 1 {
            let ones = (bitmap >> pos).count_ones();
            proof {
                lemma_rank_in_range(Self::ptr_bits(bitmap), pos as nat, 8);
                lemma_count_bound(Self::ptr_bits(bitmap), 0, 8);
            }
            Ok((ones - 1) as usize)
        } else {
            Err(StoreError::EmptySlot)
        }
    }

    fn into_stride_size(bitmap: u8) -> (r: u16) {
        proof {
            lemma2_to64();
            bv_u16(0, bitmap, 0);
            lemma_bits_shl_one(bitmap as u128);
            Self::lemma_ptr_bits_below(bitmap);
        }
        (bitmap as u16) << 1
    }

    fn into_ptrbitarr_size(bitmap: u16) -> (r: u8) {
        let r = #[verifier::truncate] ((bitmap >> 1) as u8);
        proof {
            lemma2_to64();
            bv_u16(bitmap, 0, 0);
            lemma_bits_shr(bitmap as u128, 1);
            lemma_bits_low((bitmap as u128) >> 1, 8);
            assert(r as u128 == low_bits((bitmap as u128) >> 1, 8));
            assert forall|i: nat| #[trigger] Self::ptr_bits(r).contains(i) <==> (i < 8 && bitmap.bits().contains(
                i + 1,
            )) by {
                assert(bits_of(low_bits((bitmap as u128) >> 1, 8)).contains(i) <==> (i < 8 && bits_of(
                    (bitmap as u128) >> 1,
                ).contains(i)));
            }
        }
        r
    }

    fn zero() -> (r: u16) {
        proof {
            lemma_bits_zero_one();
        }
        0
    }

    fn one() -> (r: u16) {
        proof {
            lemma_bits_zero_one();
        }
        1
    }

    fn leading_zeros(self) -> (r: u32) {
        let r = self.leading_zeros();
        proof {
            lemma2_to64();
            vstd::std_specs::bits::axiom_u16_leading_zeros(self);
            self.lemma_bits_below();
            assert forall|i: nat| 16 - r <= i implies !self.bits().contains(i) by {
                if i < 16 {
                    let j = i as u16;
                    assert((self >> j) & 1u16 == 0u16);
                }
            }
            if r < 16 {
                lemma_and_one((self >> ((15 - r) as u16)) as u128);
            }
        }
        r
    }

    fn bitor(self, rhs: u16) -> (r: u16) {
        proof {
            lemma_bits_or_and(self as u128, rhs as u128);
        }
        self | rhs
    }

    fn bitand(self, rhs: u16) -> (r: u16) {
        proof {
            lemma_bits_or_and(self as u128, rhs as u128);
        }
        self & rhs
    }

    fn is_zero(self) -> (r: bool) {
        proof {
            lemma_bits_zero_one();
            if self != 0 {
                lemma_nonzero_has_bit(self as u128);
            }
        }
        self == 0
    }
}

proof fn bv_u32(x: u32, b: u16, p: u32)
    by (bit_vector)
    requires
        p < 32,
    ensures
        (1u32 << p) as u128 == 1u128 << (p as u128),
        (((x >> 1) as u16) as u128) == ((x as u128) >> 1) & 0xffff,
        ((b as u32) << 1) as u128 == (b as u128) << 1,
{
}

impl Stride for u32 {
    type PtrSize = u16;

    open spec fn spec_stride_len() -> nat {
        4
    }

    open spec fn bits(self) -> Set<nat> {
        bits_of(self as u128)
    }

    open spec fn ptr_bits(ptr: u16) -> Set<nat> {
        bits_of(ptr as u128)
    }

    proof fn lemma_stride_len() {
    }

    proof fn lemma_bits_below(self) {
        lemma2_to64();
        lemma_bits_narrow(self as u128, 32);
    }

    proof fn lemma_ptr_bits_below(ptr: u16) {
        lemma2_to64();
        lemma_bits_narrow(ptr as u128, 16);
    }

    fn stride_len() -> (r: u8) {
        4
    }

    fn get_bit_pos(nibble: u32, len: u8) -> (r: u32) {
        proof {
            lemma2_to64();
            lemma_slot_pos(4, nibble as nat, len as nat);
        }
        let pos: u32 = 31 - slot_number(nibble, len);
        proof {
            bv_u32(0, 0, pos as u32);
            lemma_bits_single(pos as nat);
        }
        1u32 << pos
    }

    fn get_pfx_index(bitmap: u32, nibble: u32, len: u8) -> (r: Result<usize, StoreError>) {
        proof {
            lemma2_to64();
            lemma_slot_pos(4, nibble as nat, len as nat);
        }
        let pos: u32 = 31 - slot_number(nibble, len);
        proof {
            bitmap.lemma_bits_below();
            lemma_shifted_ones_is_count(bitmap as u128, pos as nat, 32);
        }
        if (bitmap >> pos) & 1 == 1 {
            let ones = (bitmap >> pos).count_ones();
            proof {
                lemma_rank_in_range(bitmap.bits(), pos as nat, 32);
                lemma_count_bound(bitmap.bits(), 0, 32);
            }
            Ok((ones - 1) as usize)
        } else {
            Err(StoreError::EmptySlot)
        }
    }

    fn get_ptr_index(bitmap: u16, nibble: u32) -> (r: Result<usize, StoreError>) {
        proof {
            lemma2_to64();
        }
        let pos: u32 = 15 - nibble;
        proof {
            Self::lemma_ptr_bits_below(bitmap);
            lemma_shifted_ones_is_count(bitmap as u128, pos as nat, 16);
        }
        if (bitmap >> pos) & 1 == 1 {
            let ones = (bitmap >> pos).count_ones();
            proof {
                lemma_rank_in_range(Self::ptr_bits(bitmap), pos as nat, 16);
                lemma_count_bound(Self::ptr_bits(bitmap), 0, 16);
            }
            Ok((ones - 1) as usize)
        } else {
            Err(StoreError::EmptySlot)
        }
    }

    fn into_stride_size(bitmap: u16) -> (r: u32) {
        proof {
            lemma2_to64();
            bv_u32(0, bitmap, 0);
            lemma_bits_shl_one(bitmap as u128);
            Self::lemma_ptr_bits_below(bitmap);
        }
        (bitmap as u32) << 1
    }

    fn into_ptrbitarr_size(bitmap: u32) -> (r: u16) {
        let r = #[verifier::truncate] ((bitmap >> 1) as u16);
        proof {
            lemma2_to64();
            bv_u32(bitmap, 0, 0);
            lemma_bits_shr(bitmap as u128, 1);
            lemma_bits_low((bitmap as u128) >> 1, 16);
            assert(r as u128 == low_bits((bitmap as u128) >> 1, 16));
            assert forall|i: nat| #[trigger] Self::ptr_bits(r).contains(i) <==> (i < 16 && bitmap.bits().contains(
                i + 1,
            )) by {
                assert(bits_of(low_bits((bitmap as u128) >> 1, 16)).contains(i) <==> (i < 16 && bits_of(
                    (bitmap as u128) >> 1,
                ).contains(i)));
            }
        }
        r
    }

    fn zero() -> (r: u32) {
        proof {
            lemma_bits_zero_one();
        }
        0
    }

    fn one() -> (r: u32) {
        proof {
            lemma_bits_zero_one();
        }
        1
    }

    fn leading_zeros(self) -> (r: u32) {
        let r = self.leading_zeros();
        proof {
            lemma2_to64();
            vstd::std_specs::bits::axiom_u32_leading_zeros(self);
            self.lemma_bits_below();
            assert forall|i: nat| 32 - r <= i implies !self.bits().contains(i) by {
                if i < 32 {
                    let j = i as u32;
                    assert((self >> j) & 1u32 == 0u32);
                }
            }
            if r < 32 {
                lemma_and_one((self >> ((31 - r) as u32)) as u128);
            }
        }
        r
    }

    fn bitor(self, rhs: u32) -> (r: u32) {
        proof {
            lemma_bits_or_and(self as u128, rhs as u128);
        }
        self | rhs
    }

    fn bitand(self, rhs: u32) -> (r: u32) {
        proof {
            lemma_bits_or_and(self as u128, rhs as u128);
        }
        self & rhs
    }

    fn is_zero(self) -> (r: bool) {
        proof {
            lemma_bits_zero_one();
            if self != 0 {
                lemma_nonzero_has_bit(self as u128);
            }
        }
        self == 0
    }
}

proof fn bv_u64(x: u64, b: u32, p: u64)
    by (bit_vector)
    requires
        p < 64,
    ensures
        (1u64 << p) as u128 == 1u128 << (p as u128),
        (((x >> 1) as u32) as u128) == ((x as u128) >> 1) & 0xffff_ffff,
        ((b as u64) << 1) as u128 == (b as u128) << 1,
{
}

impl Stride for u64 {
    type PtrSize = u32;

    open spec fn spec_stride_len() -> nat {
        5
    }

    open spec fn bits(self) -> Set<nat> {
        bits_of(self as u128)
    }

    open spec fn ptr_bits(ptr: u32) -> Set<nat> {
        bits_of(ptr as u128)
    }

    proof fn lemma_stride_len() {
    }

    proof fn lemma_bits_below(self) {
        lemma2_to64();
        lemma_bits_narrow(self as u128, 64);
    }

    proof fn lemma_ptr_bits_below(ptr: u32) {
        lemma2_to64();
        lemma_bits_narrow(ptr as u128, 32);
    }

    fn stride_len() -> (r: u8) {
        5
    }

    fn get_bit_pos(nibble: u32, len: u8) -> (r: u64) {
        proof {
            lemma2_to64();
            lemma_slot_pos(5, nibble as nat, len as nat);
        }
        let pos: u32 = 63 - slot_number(nibble, len);
        proof {
            bv_u64(0, 0, pos as u64);
            lemma_bits_single(pos as nat);
        }
        1u64 << pos
    }

    fn get_pfx_index(bitmap: u64, nibble: u32, len: u8) -> (r: Result<usize, StoreError>) {
        proof {
            lemma2_to64();
            lemma_slot_pos(5, nibble as nat, len as nat);
        }
        let pos: u32 = 63 - slot_number(nibble, len);
        proof {
            bitmap.lemma_bits_below();
            lemma_shifted_ones_is_count(bitmap as u128, pos as nat, 64);
        }
        if (bitmap >> pos) & 1 == 1 {
            let ones = (bitmap >> pos).count_ones();
            proof {
                lemma_rank_in_range(bitmap.bits(), pos as nat, 64);
                lemma_count_bound(bitmap.bits(), 0, 64);
            }
            Ok((ones - 1) as usize)
        } else {
            Err(StoreError::EmptySlot)
        }
    }

    fn get_ptr_index(bitmap: u32, nibble: u32) -> (r: Result<usize, StoreError>) {
        proof {
            lemma2_to64();
        }
        let pos: u32 = 31 - nibble;
        proof {
            Self::lemma_ptr_bits_below(bitmap);
            lemma_shifted_ones_is_count(bitmap as u128, pos as nat, 32);
        }
        if (bitmap >> pos) & 1 == 1 {
            let ones = (bitmap >> pos).count_ones();
            proof {
                lemma_rank_in_range(Self::ptr_bits(bitmap), pos as nat, 32);
                lemma_count_bound(Self::ptr_bits(bitmap), 0, 32);
            }
            Ok((ones - 1) as usize)
        } else {
            Err(StoreError::EmptySlot)
        }
    }

    fn into_stride_size(bitmap: u32) -> (r: u64) {
        proof {
            lemma2_to64();
            bv_u64(0, bitmap, 0);
            lemma_bits_shl_one(bitmap as u128);
            Self::lemma_ptr_bits_below(bitmap);
        }
        (bitmap as u64) << 1
    }

    fn into_ptrbitarr_size(bitmap: u64) -> (r: u32) {
        let r = #[verifier::truncate] ((bitmap >> 1) as u32);
        proof {
            lemma2_to64();
            bv_u64(bitmap, 0, 0);
            lemma_bits_shr(bitmap as u128, 1);
            lemma_bits_low((bitmap as u128) >> 1, 32);
            assert(r as u128 == low_bits((bitmap as u128) >> 1, 32));
            assert forall|i: nat| #[trigger] Self::ptr_bits(r).contains(i) <==> (i < 32 && bitmap.bits().contains(
                i + 1,
            )) by {
                assert(bits_of(low_bits((bitmap as u128) >> 1, 32)).contains(i) <==> (i < 32 && bits_of(
                    (bitmap as u128) >> 1,
                ).contains(i)));
            }
        }
        r
    }

    fn zero() -> (r: u64) {
        proof {
            lemma_bits_zero_one();
        }
        0
    }

    fn one() -> (r: u64) {
        proof {
            lemma_bits_zero_one();
        }
        1
    }

    fn leading_zeros(self) -> (r: u32) {
        let r = self.leading_zeros();
        proof {
            lemma2_to64();
            vstd::std_specs::bits::axiom_u64_leading_zeros(self);
            self.lemma_bits_below();
            assert forall|i: nat| 64 - r <= i implies !self.bits().contains(i) by {
                if i < 64 {
                    let j = i as u64;
                    assert((self >> j) & 1u64 == 0u64);
                }
            }
            if r < 64 {
                lemma_and_one((self >> ((63 - r) as u64)) as u128);
            }
        }
        r
    }

    fn bitor(self, rhs: u64) -> (r: u64) {
        proof {
            lemma_bits_or_and(self as u128, rhs as u128);
        }
        self | rhs
    }

    fn bitand(self, rhs: u64) -> (r: u64) {
        proof {
            lemma_bits_or_and(self as u128, rhs as u128);
        }
        self & rhs
    }

    fn is_zero(self) -> (r: bool) {
        proof {
            lemma_bits_zero_one();
            if self != 0 {
                lemma_nonzero_has_bit(self as u128);
            }
        }
        self == 0
    }
}

proof fn bv_u128(x: u128, b: u64, p: u128)
    by (bit_vector)
    requires
        p < 128,
    ensures
        (1u128 << p) as u128 == 1u128 << (p as u128),
        (((x >> 1) as u64) as u128) == ((x as u128) >> 1) & 0xffff_ffff_ffff_ffff,
        ((b as u128) << 1) as u128 == (b as u128) << 1,
{
}

impl Stride for u128 {
    type PtrSize = u64;

    open spec fn spec_stride_len() -> nat {
        6
    }

    open spec fn bits(self) -> Set<nat> {
        bits_of(self as u128)
    }

    open spec fn ptr_bits(ptr: u64) -> Set<nat> {
        bits_of(ptr as u128)
    }

    proof fn lemma_stride_len() {
    }

    proof fn lemma_bits_below(self) {
        lemma2_to64();
        lemma_bits_narrow(self as u128, 128);
    }

    proof fn lemma_ptr_bits_below(ptr: u64) {
        lemma2_to64();
        lemma_bits_narrow(ptr as u128, 64);
    }

    fn stride_len() -> (r: u8) {
        6
    }

    fn get_bit_pos(nibble: u32, len: u8) -> (r: u128) {
        proof {
            lemma2_to64();
            lemma_slot_pos(6, nibble as nat, len as nat);
        }
        let pos: u32 = 127 - slot_number(nibble, len);
        proof {
            bv_u128(0, 0, pos as u128);
            lemma_bits_single(pos as nat);
        }
        1u128 << pos
    }

    fn get_pfx_index(bitmap: u128, nibble: u32, len: u8) -> (r: Result<usize, StoreError>) {
        proof {
            lemma2_to64();
            lemma_slot_pos(6, nibble as nat, len as nat);
        }
        let pos: u32 = 127 - slot_number(nibble, len);
        proof {
            bitmap.lemma_bits_below();
            lemma_shifted_ones_is_count(bitmap as u128, pos as nat, 128);
        }
        if (bitmap >> pos) & 1 == 1 {
            let ones = (bitmap >> pos).count_ones();
            proof {
                lemma_rank_in_range(bitmap.bits(), pos as nat, 128);
                lemma_count_bound(bitmap.bits(), 0, 128);
            }
            Ok((ones - 1) as usize)
        } else {
            Err(StoreError::EmptySlot)
        }
    }

    fn get_ptr_index(bitmap: u64, nibble: u32) -> (r: Result<usize, StoreError>) {
        proof {
            lemma2_to64();
        }
        let pos: u32 = 63 - nibble;
        proof {
            Self::lemma_ptr_bits_below(bitmap);
            lemma_shifted_ones_is_count(bitmap as u128, pos as nat, 64);
        }
        if (bitmap >> pos) & 1 == 1 {
            let ones = (bitmap >> pos).count_ones();
            proof {
                lemma_rank_in_range(Self::ptr_bits(bitmap), pos as nat, 64);
                lemma_count_bound(Self::ptr_bits(bitmap), 0, 64);
            }
            Ok((ones - 1) as usize)
        } else {
            Err(StoreError::EmptySlot)
        }
    }

    fn into_stride_size(bitmap: u64) -> (r: u128) {
        proof {
            lemma2_to64();
            bv_u128(0, bitmap, 0);
            lemma_bits_shl_one(bitmap as u128);
            Self::lemma_ptr_bits_below(bitmap);
        }
        (bitmap as u128) << 1
    }

    fn into_ptrbitarr_size(bitmap: u128) -> (r: u64) {
        let r = #[verifier::truncate] ((bitmap >> 1) as u64);
        proof {
            lemma2_to64();
            bv_u128(bitmap, 0, 0);
            lemma_bits_shr(bitmap as u128, 1);
            lemma_bits_low((bitmap as u128) >> 1, 64);
            assert(r as u128 == low_bits((bitmap as u128) >> 1, 64));
            assert forall|i: nat| #[trigger] Self::ptr_bits(r).contains(i) <==> (i < 64 && bitmap.bits().contains(
                i + 1,
            )) by {
                assert(bits_of(low_bits((bitmap as u128) >> 1, 64)).contains(i) <==> (i < 64 && bits_of(
                    (bitmap as u128) >> 1,
                ).contains(i)));
            }
        }
        r
    }

    fn zero() -> (r: u128) {
        proof {
            lemma_bits_zero_one();
        }
        0
    }

    fn one() -> (r: u128) {
        proof {
            lemma_bits_zero_one();
        }
        1
    }

    fn leading_zeros(self) -> (r: u32) {
        let r = leading_zeros_u128(self);
        proof {
            lemma2_to64();
            self.lemma_bits_below();
        }
        r
    }

    fn bitor(self, rhs: u128) -> (r: u128) {
        proof {
            lemma_bits_or_and(self as u128, rhs as u128);
        }
        self | rhs
    }

    fn bitand(self, rhs: u128) -> (r: u128) {
        proof {
            lemma_bits_or_and(self as u128, rhs as u128);
        }
        self & rhs
    }

    fn is_zero(self) -> (r: bool) {
        proof {
            lemma_bits_zero_one();
            if self != 0 {
                lemma_nonzero_has_bit(self as u128);
            }
        }
        self == 0
    }
}

} // verus!
