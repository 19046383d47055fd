//! Machine words as sets of bit positions.
//!
//! Every unsigned word up to 128 bits is read through its value as a `u128`.

use vstd::prelude::*;
use crate::bitset::{below, count_in, lemma_count_none, lemma_count_shifted, lemma_count_split};

verus! {

/// Bit `i` of `x` is one.
pub open spec fn bit_set(x: u128, i: nat) -> bool {
    i < 128 && (x >> (i as u128)) & 1u128 == 1u128
}

/// The positions at which `x` holds a one.
pub open spec fn bits_of(x: u128) -> Set<nat> {
    Set::new(|i: nat| bit_set(x, i))
}

/// The number of ones among the lowest `n` bits of `x`.
pub open spec fn ones_below(x: u128, n: nat) -> nat
    decreases n,
{
    if n == 0 {
        0
    } else {
        ones_below(x, (n - 1) as nat) + (if bit_set(x, (n - 1) as nat) { 1nat } else { 0nat })
    }
}

/// `u8::count_ones` of std: the number of ones in the binary representation.
pub assume_specification[ u8::count_ones ](x: u8) -> (r: u32)
    ensures
        r == ones_below(x as u128, 8),
;

/// `u16::count_ones` of std: the number of ones in the binary representation.
pub assume_specification[ u16::count_ones ](x: u16) -> (r: u32)
    ensures
        r == ones_below(x as u128, 16),
;

/// `u32::count_ones` of std: the number of ones in the binary representation.
pub assume_specification[ u32::count_ones ](x: u32) -> (r: u32)
    ensures
        r == ones_below(x as u128, 32),
;

/// `u64::count_ones` of std: the number of ones in the binary representation.
pub assume_specification[ u64::count_ones ](x: u64) -> (r: u32)
    ensures
        r == ones_below(x as u128, 64),
;

/// `u128::count_ones` of std: the number of ones in the binary representation.
pub assume_specification[ u128::count_ones ](x: u128) -> (r: u32)
    ensures
        r == ones_below(x, 128),
;

/// `ones_below` counts the members of `bits_of` from position 0.
pub proof fn lemma_ones_below_is_count(x: u128, n: nat)
    ensures
        ones_below(x, n) == count_in(bits_of(x), 0, n),
    decreases n,
{
    if n > 0 {
        lemma_ones_below_is_count(x, (n - 1) as nat);
        lemma_count_split(bits_of(x), 0, (n - 1) as nat, n);
        assert(count_in(bits_of(x), (n - 1) as nat, n) == if bit_set(x, (n - 1) as nat) { 1nat } else { 0nat }) by {
            assert(count_in(bits_of(x), n, n) == 0);
        }
    }
}

proof fn bv_shr_shr(x: u128, p: u128, i: u128)
    by (bit_vector)
    requires
        p < 128,
        i < 128,
    ensures
        p + i < 128 ==> ((x >> p) >> i) & 1 == (x >> ((p + i) as u128)) & 1,
        p + i >= 128 ==> ((x >> p) >> i) & 1 == 0,
{
}

proof fn bv_single(p: u128, i: u128)
    by (bit_vector)
    requires
        p < 128,
        i < 128,
    ensures
        ((1u128 << p) >> i) & 1 == 1 <==> i == p,
{
}

proof fn bv_or_and(a: u128, b: u128, i: u128)
    by (bit_vector)
    requires
        i < 128,
    ensures
        ((a | b) >> i) & 1 == 1 <==> ((a >> i) & 1 == 1 || (b >> i) & 1 == 1),
        ((a & b) >> i) & 1 == 1 <==> ((a >> i) & 1 == 1 && (b >> i) & 1 == 1),
{
}

/// Shifting right by `p` moves every bit down by `p` positions.
pub proof fn lemma_bits_shr(x: u128, p: u128)
    requires
        p < 128,
    ensures
        forall|i: nat| #[trigger] bits_of(x >> p).contains(i) <==> bits_of(x).contains(i + p as nat),
{
    assert forall|i: nat| #[trigger] bits_of(x >> p).contains(i) <==> bits_of(x).contains(i + p as nat) by {
        if i < 128 {
            bv_shr_shr(x, p, i as u128);
        }
    }
}

/// `1 << p` holds exactly bit `p`.
pub proof fn lemma_bits_single(p: nat)
    requires
        p < 128,
    ensures
        bits_of(1u128 << (p as u128)) == set![p],
{
    assert forall|i: nat| bits_of(1u128 << (p as u128)).contains(i) <==> set![p].contains(i) by {
        if i < 128 {
            bv_single(p as u128, i as u128);
        }
    }
    assert(bits_of(1u128 << (p as u128)) =~= set![p]);
}

/// `|` is union and `&` is intersection.
pub proof fn lemma_bits_or_and(a: u128, b: u128)
    ensures
        bits_of(a | b) == bits_of(a).union(bits_of(b)),
        bits_of(a & b) == bits_of(a).intersect(bits_of(b)),
{
    assert forall|i: nat| bits_of(a | b).contains(i) <==> bits_of(a).union(bits_of(b)).contains(i) by {
        if i < 128 {
            bv_or_and(a, b, i as u128);
        }
    }
    assert forall|i: nat| bits_of(a & b).contains(i) <==> bits_of(a).intersect(bits_of(b)).contains(i) by {
        if i < 128 {
            bv_or_and(a, b, i as u128);
        }
    }
    assert(bits_of(a | b) =~= bits_of(a).union(bits_of(b)));
    assert(bits_of(a & b) =~= bits_of(a).intersect(bits_of(b)));
}


proof fn bv_narrow(x: u128, i: u128)
    by (bit_vector)
    requires
        i < 128,
    ensures
        x <= 0xff && i >= 8 ==> (x >> i) & 1 == 0,
        x <= 0xffff && i >= 16 ==> (x >> i) & 1 == 0,
        x <= 0xffff_ffff && i >= 32 ==> (x >> i) & 1 == 0,
        x <= 0xffff_ffff_ffff_ffff && i >= 64 ==> (x >> i) & 1 == 0,
{
}

proof fn bv_step(x: u128)
    by (bit_vector)
    ensures
        x != 0 ==> (x >> 0) & 1 == 1 || ((x >> 1) != 0 && (x >> 1) < x),
        x == 0 ==> (x >> 1) == 0,
{
}

proof fn bv_zero(i: u128)
    by (bit_vector)
    requires
        i < 128,
    ensures
        (0u128 >> i) & 1 == 0,
        ((1u128 >> i) & 1 == 1) <==> i == 0,
{
}

proof fn bv_shl_one(x: u128, i: u128)
    by (bit_vector)
    requires
        i < 128,
    ensures
        i >= 1 ==> ((x << 1) >> i) & 1 == (x >> ((i - 1) as u128)) & 1,
        i == 0 ==> ((x << 1) >> i) & 1 == 0,
{
}

/// A word of `w` bits holds no bit at position `w` or above.
pub proof fn lemma_bits_narrow(x: u128, w: nat)
    requires
        w == 8 || w == 16 || w == 32 || w == 64 || w == 128,
        w == 8 ==> x <= 0xff,
        w == 16 ==> x <= 0xffff,
        w == 32 ==> x <= 0xffff_ffff,
        w == 64 ==> x <= 0xffff_ffff_ffff_ffff,
    ensures
        below(bits_of(x), w),
{
    assert forall|i: nat| bits_of(x).contains(i) implies i < w by {
        bv_narrow(x, i as u128);
    }
}

/// Zero is the word without bits, one the word with bit 0 alone.
pub proof fn lemma_bits_zero_one()
    ensures
        bits_of(0) == Set::<nat>::empty(),
        bits_of(1) == set![0nat],
{
    assert forall|i: nat| !bits_of(0).contains(i) by {
        if i < 128 {
            bv_zero(i as u128);
        }
    }
    assert forall|i: nat| bits_of(1).contains(i) <==> i == 0 by {
        if i < 128 {
            bv_zero(i as u128);
        }
    }
    assert(bits_of(0) =~= Set::<nat>::empty());
    assert(bits_of(1) =~= set![0nat]);
}

/// A word other than zero holds a bit.
pub proof fn lemma_nonzero_has_bit(x: u128)
    requires
        x != 0,
    ensures
        exists|i: nat| bits_of(x).contains(i),
    decreases x,
{
    bv_step(x);
    if (x >> 0) & 1 == 1 {
        assert(bits_of(x).contains(0nat));
    } else {
        lemma_nonzero_has_bit(x >> 1);
        let i = choose|i: nat| bits_of(x >> 1).contains(i);
        bv_shr_shr(x, 1, i as u128);
        assert(bits_of(x).contains(i + 1));
    }
}

/// Shifting left by one moves every bit up by one position.
pub proof fn lemma_bits_shl_one(x: u128)
    ensures
        forall|i: nat| #[trigger] bits_of(x << 1).contains(i) <==> (1 <= i < 128 && bits_of(x).contains((i - 1) as nat)),
{
    assert forall|i: nat| #[trigger] bits_of(x << 1).contains(i) <==> (1 <= i < 128 && bits_of(x).contains((i - 1) as nat)) by {
        if i < 128 {
            bv_shl_one(x, i as u128);
        }
    }
}

/// The rank of bit `pos` in a word of `w` bits, from what `count_ones` returns
/// of the word shifted right by `pos`.
pub proof fn lemma_shifted_ones_is_count(x: u128, pos: nat, w: nat)
    requires
        pos < w <= 128,
        below(bits_of(x), w),
    ensures
        ones_below(x >> (pos as u128), w) == count_in(bits_of(x), pos, w),
{
    let y = x >> (pos as u128);
    lemma_ones_below_is_count(y, w);
    lemma_bits_shr(x, pos as u128);
    lemma_count_shifted(bits_of(x), bits_of(y), pos, 0, w);
    lemma_count_split(bits_of(x), pos, w, w + pos);
    lemma_count_none(bits_of(x), w, w + pos);
}

proof fn bv_low(x: u128, i: u128)
    by (bit_vector)
    requires
        i < 128,
    ensures
        ((x & 0xff) >> i) & 1 == 1 <==> (i < 8 && (x >> i) & 1 == 1),
        ((x & 0xffff) >> i) & 1 == 1 <==> (i < 16 && (x >> i) & 1 == 1),
        ((x & 0xffff_ffff) >> i) & 1 == 1 <==> (i < 32 && (x >> i) & 1 == 1),
        ((x & 0xffff_ffff_ffff_ffff) >> i) & 1 == 1 <==> (i < 64 && (x >> i) & 1 == 1),
        (x & 1) != 0 ==> (x & 1) == 1,
{
}

/// The lowest `w` bits of a word, cut out with a mask.
pub open spec fn low_bits(x: u128, w: nat) -> u128 {
    if w == 8 {
        x & 0xff
    } else if w == 16 {
        x & 0xffff
    } else if w == 32 {
        x & 0xffff_ffff
    } else {
        x & 0xffff_ffff_ffff_ffff
    }
}

/// Masking to `w` bits keeps the bits below `w` and drops the others.
pub proof fn lemma_bits_low(x: u128, w: nat)
    requires
        w == 8 || w == 16 || w == 32 || w == 64,
    ensures
        forall|i: nat| #[trigger] bits_of(low_bits(x, w)).contains(i) <==> (i < w && bits_of(x).contains(i)),
{
    assert forall|i: nat| #[trigger] bits_of(low_bits(x, w)).contains(i) <==> (i < w && bits_of(x).contains(i)) by {
        if i < 128 {
            bv_low(x, i as u128);
        }
    }
}

/// A word masked with one that is not zero is one.
pub proof fn lemma_and_one(x: u128)
    ensures
        (x & 1) != 0 ==> (x & 1) == 1,
{
    bv_low(x, 0);
}

/// Calls `u128::leading_zeros` of std, which returns the number of zero bits
/// above the highest one, and 128 for zero.
#[verifier::external_body]
pub(crate) fn leading_zeros_u128(x: u128) -> (r: u32)
    ensures
        r <= 128,
        forall|i: nat| 128 - r <= i < 128 ==> !bit_set(x, i),
        r < 128 ==> bit_set(x, (127 - r) as nat),
{
    x.leading_zeros()
}

proof fn bv_shl_top(x: u128, i: u128)
    by (bit_vector)
    requires
        i < 128,
    ensures
        ((x << 127) >> i) & 1 == 1 <==> (i == 127 && (x >> 0) & 1 == 1),
{
}

/// Shifting left by 127 leaves bit 0 alone, at position 127.
pub proof fn lemma_bits_shl_top(x: u128)
    ensures
        forall|i: nat| #[trigger] bits_of(x << 127).contains(i) <==> (i == 127 && bits_of(x).contains(0)),
{
    assert forall|i: nat| #[trigger] bits_of(x << 127).contains(i) <==> (i == 127 && bits_of(x).contains(0)) by {
        if i < 128 {
            bv_shl_top(x, i as u128);
        }
    }
}

/// No more ones than bits.
pub proof fn lemma_ones_bound(x: u128, n: nat)
    ensures
        ones_below(x, n) <= n,
    decreases n,
{
    if n > 0 {
        lemma_ones_bound(x, (n - 1) as nat);
    }
}

proof fn bv_xor(a: u128, b: u128, i: u128)
    by (bit_vector)
    requires
        i < 128,
    ensures
        ((a ^ b) >> i) & 1 == 1 ==> ((a >> i) & 1 == 1) != ((b >> i) & 1 == 1),
        a ^ b == 0 ==> a == b,
{
}

/// Words with the same bits are the same word.
pub proof fn lemma_bits_determine(a: u128, b: u128)
    requires
        bits_of(a) == bits_of(b),
    ensures
        a == b,
{
    let x = a ^ b;
    bv_xor(a, b, 0);
    if x != 0 {
        lemma_nonzero_has_bit(x);
        let i = choose|i: nat| bits_of(x).contains(i);
        bv_xor(a, b, i as u128);
        assert(bit_set(x, i));
        assert(bit_set(a, i) != bit_set(b, i));
        assert(bits_of(a).contains(i) == bit_set(a, i));
        assert(bits_of(b).contains(i) == bit_set(b, i));
    }
}

} // verus!
