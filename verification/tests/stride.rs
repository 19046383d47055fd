use trie::error::StoreError;
use trie::treebitmap::stats::{CreatedNodes, SizedStride, StrideStats};
use trie::treebitmap::stride::{slot_number, Stride};
use trie::treebitmap::wide::{U256, U512};

#[test]
fn slot_numbers_follow_the_enumeration() {
    assert_eq!(slot_number(0, 0), 0);
    assert_eq!(slot_number(0, 1), 1);
    assert_eq!(slot_number(1, 1), 2);
    assert_eq!(slot_number(0, 2), 3);
    assert_eq!(slot_number(3, 2), 6);
    assert_eq!(slot_number(0b1010, 4), 25);
    assert_eq!(slot_number(255, 8), 510);
}

#[test]
fn bit_positions_of_stride_3() {
    assert_eq!(<u16 as Stride>::stride_len(), 3);
    assert_eq!(<u16 as Stride>::get_bit_pos(0, 0), 0x8000);
    assert_eq!(<u16 as Stride>::get_bit_pos(0, 1), 0x4000);
    assert_eq!(<u16 as Stride>::get_bit_pos(1, 1), 0x2000);
    assert_eq!(<u16 as Stride>::get_bit_pos(0, 3), 0x0100);
    assert_eq!(<u16 as Stride>::get_bit_pos(7, 3), 0x0002);
}

#[test]
fn bit_positions_of_stride_4() {
    assert_eq!(<u32 as Stride>::stride_len(), 4);
    assert_eq!(<u32 as Stride>::get_bit_pos(0, 0), 1 << 31);
    assert_eq!(<u32 as Stride>::get_bit_pos(0b1010, 4), 1 << (31 - 25));
    assert_eq!(<u32 as Stride>::get_bit_pos(0b101, 3), 1 << (31 - 12));
    assert_eq!(<u32 as Stride>::get_bit_pos(15, 4), 2);
}

#[test]
fn bit_positions_of_strides_5_and_6() {
    assert_eq!(<u64 as Stride>::stride_len(), 5);
    assert_eq!(<u64 as Stride>::get_bit_pos(0, 0), 1 << 63);
    assert_eq!(<u64 as Stride>::get_bit_pos(31, 5), 2);
    assert_eq!(<u128 as Stride>::stride_len(), 6);
    assert_eq!(<u128 as Stride>::get_bit_pos(0, 0), 1 << 127);
    assert_eq!(<u128 as Stride>::get_bit_pos(63, 6), 2);
    assert_eq!(<u128 as Stride>::get_bit_pos(0, 6), 1 << 64);
}

#[test]
fn bit_positions_of_wide_strides() {
    assert_eq!(<U256 as Stride>::stride_len(), 7);
    assert_eq!(<U256 as Stride>::get_bit_pos(0, 0), U256(1 << 127, 0));
    assert_eq!(<U256 as Stride>::get_bit_pos(127, 7), U256(0, 2));
    assert_eq!(<U256 as Stride>::get_bit_pos(0, 7), U256(1, 0));
    assert_eq!(<U256 as Stride>::get_bit_pos(1, 7), U256(0, 1 << 127));
    assert_eq!(<U512 as Stride>::stride_len(), 8);
    assert_eq!(<U512 as Stride>::get_bit_pos(0, 0), U512(1 << 127, 0, 0, 0));
    assert_eq!(<U512 as Stride>::get_bit_pos(255, 8), U512(0, 0, 0, 2));
    assert_eq!(<U512 as Stride>::get_bit_pos(0, 8), U512(0, 1, 0, 0));
    assert_eq!(<U512 as Stride>::get_bit_pos(1, 8), U512(0, 0, 1 << 127, 0));
    assert_eq!(<U512 as Stride>::get_bit_pos(129, 8), U512(0, 0, 0, 1 << 127));
}

#[test]
fn prefix_index_counts_the_ones_above() {
    let bitmap: u16 = 0x8000 | 0x4000 | 0x0002;
    assert_eq!(<u16 as Stride>::get_pfx_index(bitmap, 0, 0), Ok(0));
    assert_eq!(<u16 as Stride>::get_pfx_index(bitmap, 0, 1), Ok(1));
    assert_eq!(<u16 as Stride>::get_pfx_index(bitmap, 7, 3), Ok(2));
    let bitmap: u32 = (1 << 30) | (1 << 26) | (1 << 19) | (1 << 6);
    assert_eq!(<u32 as Stride>::get_pfx_index(bitmap, 0, 1), Ok(0));
    assert_eq!(<u32 as Stride>::get_pfx_index(bitmap, 0b10, 2), Ok(1));
    assert_eq!(<u32 as Stride>::get_pfx_index(bitmap, 0b101, 3), Ok(2));
    assert_eq!(<u32 as Stride>::get_pfx_index(bitmap, 0b1010, 4), Ok(3));
    assert_eq!(<u64 as Stride>::get_pfx_index(u64::MAX, 31, 5), Ok(62));
    assert_eq!(<u128 as Stride>::get_pfx_index(u128::MAX, 63, 6), Ok(126));
}

#[test]
fn prefix_index_of_an_empty_slot_is_an_error() {
    assert_eq!(<u16 as Stride>::get_pfx_index(0, 0, 0), Err(StoreError::EmptySlot));
    assert_eq!(<u16 as Stride>::get_pfx_index(0x8000, 1, 1), Err(StoreError::EmptySlot));
    assert_eq!(<u32 as Stride>::get_pfx_index(!(1 << 6), 0b1010, 4), Err(StoreError::EmptySlot));
    assert_eq!(<U256 as Stride>::get_pfx_index(U256(u128::MAX, !2), 127, 7), Err(StoreError::EmptySlot));
    assert_eq!(<U512 as Stride>::get_pfx_index(U512(0, 0, 0, 0), 3, 2), Err(StoreError::EmptySlot));
    assert_eq!(<u16 as Stride>::get_ptr_index(0, 3), Err(StoreError::EmptySlot));
    assert_eq!(<U512 as Stride>::get_ptr_index(U256(1, 0), 126), Err(StoreError::EmptySlot));
}

#[test]
fn prefix_index_of_wide_bitmaps() {
    let full = U256(u128::MAX, u128::MAX);
    assert_eq!(<U256 as Stride>::get_pfx_index(full, 0, 0), Ok(0));
    assert_eq!(<U256 as Stride>::get_pfx_index(full, 0, 7), Ok(127));
    assert_eq!(<U256 as Stride>::get_pfx_index(full, 1, 7), Ok(128));
    assert_eq!(<U256 as Stride>::get_pfx_index(full, 127, 7), Ok(254));
    let sparse = U256(1 << 127, 2);
    assert_eq!(<U256 as Stride>::get_pfx_index(sparse, 127, 7), Ok(1));
    let full = U512(u128::MAX, u128::MAX, u128::MAX, u128::MAX);
    assert_eq!(<U512 as Stride>::get_pfx_index(full, 0, 0), Ok(0));
    assert_eq!(<U512 as Stride>::get_pfx_index(full, 0, 7), Ok(127));
    assert_eq!(<U512 as Stride>::get_pfx_index(full, 0, 8), Ok(255));
    assert_eq!(<U512 as Stride>::get_pfx_index(full, 1, 8), Ok(256));
    assert_eq!(<U512 as Stride>::get_pfx_index(full, 129, 8), Ok(384));
    assert_eq!(<U512 as Stride>::get_pfx_index(full, 255, 8), Ok(510));
    let sparse = U512(1, 0, 1 << 5, 2);
    assert_eq!(<U512 as Stride>::get_pfx_index(sparse, 255, 8), Ok(2));
}

#[test]
fn pointer_index_counts_the_ones_above() {
    assert_eq!(<u16 as Stride>::get_ptr_index(0b1000_0001, 0), Ok(0));
    assert_eq!(<u16 as Stride>::get_ptr_index(0b1000_0001, 7), Ok(1));
    assert_eq!(<u32 as Stride>::get_ptr_index(0xffff, 15), Ok(15));
    assert_eq!(<u64 as Stride>::get_ptr_index(0x8000_0001, 31), Ok(1));
    assert_eq!(<u128 as Stride>::get_ptr_index(u64::MAX, 10), Ok(10));
    assert_eq!(<U256 as Stride>::get_ptr_index(u128::MAX, 127), Ok(127));
    assert_eq!(<U512 as Stride>::get_ptr_index(U256(u128::MAX, u128::MAX), 255), Ok(255));
    assert_eq!(<U512 as Stride>::get_ptr_index(U256(u128::MAX, u128::MAX), 127), Ok(127));
    assert_eq!(<U512 as Stride>::get_ptr_index(U256(1 << 127, 1), 255), Ok(1));
}

#[test]
fn conversions_between_the_two_widths() {
    assert_eq!(<u16 as Stride>::into_stride_size(0b1000_0001), 0x0102);
    assert_eq!(<u16 as Stride>::into_ptrbitarr_size(0x8102), 0x81);
    assert_eq!(<u32 as Stride>::into_stride_size(0xffff), 0x1fffe);
    assert_eq!(<u32 as Stride>::into_ptrbitarr_size(0xffff_ffff), 0xffff);
    assert_eq!(<u64 as Stride>::into_stride_size(0x8000_0000), 0x1_0000_0000);
    assert_eq!(<u64 as Stride>::into_ptrbitarr_size(0x1_0000_0000), 0x8000_0000);
    assert_eq!(<u128 as Stride>::into_stride_size(u64::MAX), (u64::MAX as u128) << 1);
    assert_eq!(<u128 as Stride>::into_ptrbitarr_size(u128::MAX), u64::MAX);
    assert_eq!(<U256 as Stride>::into_stride_size(u128::MAX), U256(1, u128::MAX - 1));
    assert_eq!(<U256 as Stride>::into_ptrbitarr_size(U256(u128::MAX, u128::MAX)), u128::MAX);
    assert_eq!(<U256 as Stride>::into_ptrbitarr_size(U256(1, 0)), 1 << 127);
    assert_eq!(
        <U512 as Stride>::into_stride_size(U256(u128::MAX, u128::MAX)),
        U512(0, 1, u128::MAX, u128::MAX - 1)
    );
    assert_eq!(
        <U512 as Stride>::into_ptrbitarr_size(U512(u128::MAX, 1, 1, 1)),
        U256(1 << 127, 1 << 127)
    );
    for nibble in 0..8u32 {
        let bit = <u16 as Stride>::get_bit_pos(nibble, 3);
        let ptr = <u16 as Stride>::into_ptrbitarr_size(bit);
        assert_eq!(ptr, 1 << (7 - nibble));
        assert_eq!(<u16 as Stride>::into_stride_size(ptr), bit);
    }
}

#[test]
fn leading_zeros_of_every_width() {
    assert_eq!(<u16 as Stride>::leading_zeros(0), 16);
    assert_eq!(<u16 as Stride>::leading_zeros(0x0100), 7);
    assert_eq!(<u32 as Stride>::leading_zeros(1), 31);
    assert_eq!(<u64 as Stride>::leading_zeros(1 << 63), 0);
    assert_eq!(<u128 as Stride>::leading_zeros(1), 127);
    assert_eq!(<u128 as Stride>::leading_zeros(0), 128);
    assert_eq!(<u128 as Stride>::leading_zeros(1 << 64), 63);
    assert_eq!(<U256 as Stride>::leading_zeros(U256(0, 0)), 256);
    assert_eq!(<U256 as Stride>::leading_zeros(U256(0, 1)), 255);
    assert_eq!(<U256 as Stride>::leading_zeros(U256(1, 0)), 127);
    assert_eq!(<U512 as Stride>::leading_zeros(U512(0, 0, 0, 0)), 512);
    assert_eq!(<U512 as Stride>::leading_zeros(U512(0, 0, 1, 0)), 383);
    assert_eq!(<U512 as Stride>::leading_zeros(U512(0, 2, 1, 0)), 254);
    assert_eq!(<U512 as Stride>::leading_zeros(U512(1 << 127, 0, 0, 0)), 0);
}

#[test]
fn zero_one_and_the_bitwise_operations() {
    assert_eq!(<u16 as Stride>::zero(), 0);
    assert_eq!(<u16 as Stride>::one(), 1);
    assert_eq!(<U256 as Stride>::zero(), U256(0, 0));
    assert_eq!(<U256 as Stride>::one(), U256(0, 1));
    assert_eq!(<U512 as Stride>::one(), U512(0, 0, 0, 1));
    assert!(<U512 as Stride>::is_zero(<U512 as Stride>::zero()));
    assert!(!<U512 as Stride>::is_zero(U512(0, 1, 0, 0)));
    assert!(!<U256 as Stride>::is_zero(U256(1, 0)));
    assert!(<u64 as Stride>::is_zero(0));
    assert_eq!(<u32 as Stride>::bitor(0b1100, 0b1010), 0b1110);
    assert_eq!(<u32 as Stride>::bitand(0b1100, 0b1010), 0b1000);
    assert_eq!(<U256 as Stride>::bitor(U256(1, 2), U256(4, 8)), U256(5, 10));
    assert_eq!(<U256 as Stride>::bitand(U256(3, 6), U256(2, 12)), U256(2, 4));
    assert_eq!(<U512 as Stride>::bitor(U512(1, 0, 0, 0), U512(0, 0, 0, 1)), U512(1, 0, 0, 1));
    assert_eq!(<U512 as Stride>::bitand(U512(1, 3, 0, 7), U512(1, 2, 9, 5)), U512(1, 2, 0, 5));
}

#[test]
fn stride_statistics_start_at_zero() {
    let stats = StrideStats::new(SizedStride::Stride4, 7);
    assert_eq!(stats.stride_type, SizedStride::Stride4);
    assert_eq!(stats.stride_size, 32);
    assert_eq!(stats.stride_len, 4);
    assert_eq!(stats.node_size, 4);
    assert_eq!(stats.created_nodes.len(), 7);
    assert_eq!(stats.prefixes_num.len(), 7);
    assert_eq!(stats.created_nodes[3], CreatedNodes { depth_level: 3, count: 0 });
    assert_eq!(stats.mem_usage(), 0);
    let wide = StrideStats::new(SizedStride::Stride8, 1);
    assert_eq!((wide.stride_size, wide.stride_len, wide.node_size), (512, 8, 64));
    assert_eq!(StrideStats::nodes_vec(0).len(), 0);
}

#[test]
fn stride_statistics_count_and_sum() {
    let mut stats = StrideStats::new(SizedStride::Stride5, 3);
    stats.inc(0);
    stats.inc(2);
    stats.inc(2);
    stats.inc_prefix_count(1);
    assert_eq!(stats.created_nodes[0].count, 1);
    assert_eq!(stats.created_nodes[1].count, 0);
    assert_eq!(stats.created_nodes[2].count, 2);
    assert_eq!(stats.prefixes_num[1].count, 1);
    assert_eq!(stats.mem_usage(), 64 * 3);
    let counter = CreatedNodes { depth_level: 4, count: 5 }.add(7);
    assert_eq!(counter, CreatedNodes { depth_level: 4, count: 12 });
}
