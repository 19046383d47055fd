use trie::common::{AddressFamily, NoMeta, Prefix, PrefixAs, Trie, TrieNode};
use trie::error::StoreError;

fn ip(a: u8, b: u8, c: u8, d: u8) -> u32 {
    ((a as u32) << 24) | ((b as u32) << 16) | ((c as u32) << 8) | (d as u32)
}

#[test]
fn address_family_widths_and_masks() {
    assert_eq!(<u32 as AddressFamily>::bits(), 32);
    assert_eq!(<u128 as AddressFamily>::bits(), 128);
    assert_eq!(<u32 as AddressFamily>::bitmask(), 0x8000_0000);
    assert_eq!(<u128 as AddressFamily>::bitmask(), 1 << 127);
    assert_eq!(<u32 as AddressFamily>::zero(), 0);
    assert_eq!(<u128 as AddressFamily>::zero(), 0);
}

#[test]
fn nibbles_of_ipv4() {
    let net = 0b0100_0001_0000_0000_0000_0000_1111_1100_u32;
    assert_eq!(u32::get_nibble(net, 0, 4), 0b0100);
    assert_eq!(u32::get_nibble(net, 4, 4), 0b0001);
    assert_eq!(u32::get_nibble(net, 28, 2), 0b11);
    assert_eq!(u32::get_nibble(net, 28, 4), 0b1100);
    assert_eq!(u32::get_nibble(net, 0, 32), net);
    assert_eq!(u32::get_nibble(net, 0, 0), 0);
    assert_eq!(u32::get_nibble(net, 32, 0), 0);
    assert_eq!(u32::get_nibble(net, 1, 1), 1);
    assert_eq!(u32::get_nibble(u32::MAX, 7, 5), 31);
}

#[test]
fn nibbles_of_ipv6() {
    let net: u128 = 0x2001_0db8_0001_0000_0000_0000_0000_00ff;
    assert_eq!(u128::get_nibble(net, 0, 16), 0x2001);
    assert_eq!(u128::get_nibble(net, 16, 16), 0x0db8);
    assert_eq!(u128::get_nibble(net, 0, 32), 0x2001_0db8);
    assert_eq!(u128::get_nibble(net, 120, 8), 0xff);
    assert_eq!(u128::get_nibble(net, 2, 1), 1);
    assert_eq!(u128::get_nibble(net, 0, 0), 0);
    assert_eq!(u128::get_nibble(net, 96, 32), 0xff);
}

#[test]
fn canonical_networks() {
    assert_eq!(u32::truncate(ip(192, 0, 1, 77), 24), 0xc0_00_01);
    assert_eq!(u32::truncate(ip(192, 0, 1, 77), 0), 0);
    assert_eq!(u32::truncate(ip(192, 0, 1, 77), 32), ip(192, 0, 1, 77));
    assert_eq!(u128::truncate(1 << 127, 1), 1);
    assert_eq!(u128::truncate(u128::MAX, 0), 0);
    assert_eq!(u32::left_align(0xc0_00_01, 24), ip(192, 0, 1, 0));
    assert_eq!(u32::left_align(0, 0), 0);
    assert_eq!(u32::left_align(7, 32), 7);
    assert_eq!(u128::left_align(1, 1), 1 << 127);
    assert_eq!(u128::left_align(0x2001_0db8, 32), 0x2001_0db8 << 96);
}

#[test]
fn common_prefix_lengths() {
    assert_eq!(u32::common_prefix_len(0, 0), 32);
    assert_eq!(u32::common_prefix_len(0, 1), 31);
    assert_eq!(u32::common_prefix_len(0, u32::MAX), 0);
    assert_eq!(u32::common_prefix_len(ip(192, 0, 0, 0), ip(192, 0, 1, 0)), 23);
    assert_eq!(u128::common_prefix_len(5, 5), 128);
    assert_eq!(u128::common_prefix_len(0, 1), 127);
    assert_eq!(u128::common_prefix_len(1 << 127, 0), 0);
    assert_eq!(u128::common_prefix_len(0x2001_0db8 << 96, 0x2001_0db9 << 96), 31);
}

#[test]
fn prefix_constructors() {
    let plain = Prefix::<u32, PrefixAs>::new(ip(10, 0, 0, 0), 8);
    assert_eq!((plain.net, plain.len, plain.meta), (ip(10, 0, 0, 0), 8, None));
    let with_meta = Prefix::<u32, PrefixAs>::new_with_meta(ip(10, 0, 0, 0), 8, PrefixAs(64512));
    assert_eq!(with_meta.meta, Some(PrefixAs(64512)));
    let stripped: Prefix<u32, NoMeta> = with_meta.strip_meta();
    assert_eq!((stripped.net, stripped.len, stripped.meta), (ip(10, 0, 0, 0), 8, None));
}

fn lmp<'a>(trie: &Trie<'a, u32, PrefixAs>, net: u32, len: u8) -> Option<(u32, u8)> {
    trie.match_longest_prefix(&Prefix::new(net, len)).map(|p| (p.net, p.len))
}

#[test]
fn trie_node_starts_without_children() {
    let pfx = Prefix::<u32, NoMeta>::new(ip(10, 0, 0, 0), 8);
    let node = TrieNode::new(Some(&pfx));
    assert!(node.left.is_none());
    assert!(node.right.is_none());
    assert_eq!(node.prefix.map(|p| p.len), Some(8));
}

#[test]
fn binary_trie_longest_match() {
    let prefixes: Vec<Prefix<u32, PrefixAs>> = vec![
        Prefix::new_with_meta(ip(0, 0, 0, 0), 0, PrefixAs(1)),
        Prefix::new_with_meta(ip(10, 0, 0, 0), 8, PrefixAs(2)),
        Prefix::new_with_meta(ip(10, 1, 0, 0), 16, PrefixAs(3)),
        Prefix::new_with_meta(ip(10, 1, 2, 0), 24, PrefixAs(4)),
    ];
    let mut trie = Trie::new();
    assert_eq!(trie.1.len(), 33);
    assert_eq!(lmp(&trie, ip(10, 1, 2, 3), 32), None);
    for pfx in prefixes.iter() {
        assert_eq!(trie.insert(pfx), Ok(()));
    }
    assert_eq!(lmp(&trie, ip(10, 1, 2, 3), 32), Some((ip(10, 1, 2, 0), 24)));
    assert_eq!(lmp(&trie, ip(10, 2, 0, 0), 16), Some((ip(10, 0, 0, 0), 8)));
    assert_eq!(lmp(&trie, ip(11, 0, 0, 0), 8), Some((ip(0, 0, 0, 0), 0)));
    assert_eq!(lmp(&trie, ip(10, 1, 2, 0), 23), Some((ip(10, 1, 0, 0), 16)));
    assert_eq!(lmp(&trie, ip(10, 1, 2, 0), 33), None);
    assert_eq!(
        trie.match_longest_prefix(&Prefix::new(ip(10, 1, 2, 3), 32)).and_then(|p| p.meta),
        Some(PrefixAs(4))
    );
}

#[test]
fn binary_trie_reports_duplicates_and_keeps_the_first() {
    let first = Prefix::<u32, PrefixAs>::new_with_meta(ip(10, 0, 0, 0), 8, PrefixAs(1));
    let second = Prefix::<u32, PrefixAs>::new_with_meta(ip(10, 9, 9, 9), 8, PrefixAs(2));
    let too_long = Prefix::<u32, PrefixAs>::new(ip(10, 0, 0, 0), 40);
    let mut trie = Trie::new();
    assert_eq!(trie.insert(&first), Ok(()));
    assert_eq!(trie.insert(&second), Err(StoreError::Duplicate));
    assert_eq!(trie.insert(&too_long), Err(StoreError::InvalidPrefix));
    assert_eq!(
        trie.match_longest_prefix(&Prefix::new(ip(10, 0, 0, 1), 32)).and_then(|p| p.meta),
        Some(PrefixAs(1))
    );
}

#[test]
fn binary_trie_counts_nodes_and_prefixes() {
    let a = Prefix::<u32, NoMeta>::new(ip(128, 0, 0, 0), 2);
    let b = Prefix::<u32, NoMeta>::new(ip(192, 0, 0, 0), 2);
    let c = Prefix::<u32, NoMeta>::new(ip(128, 0, 0, 0), 1);
    let mut trie = Trie::new();
    for pfx in [&a, &b, &c] {
        assert_eq!(trie.insert(pfx), Ok(()));
    }
    assert_eq!((trie.1[0].nodes_num, trie.1[0].prefixes_num), (0, 0));
    assert_eq!((trie.1[1].nodes_num, trie.1[1].prefixes_num), (1, 1));
    assert_eq!((trie.1[2].nodes_num, trie.1[2].prefixes_num), (2, 2));
    assert_eq!((trie.1[3].nodes_num, trie.1[3].prefixes_num), (0, 0));
    assert_eq!(trie.1[2].level, 2);
}

#[test]
fn binary_trie_ipv6() {
    let net: u128 = 0x2001_0db8 << 96;
    let pfx = Prefix::<u128, NoMeta>::new(net, 32);
    let mut trie = Trie::new();
    assert_eq!(trie.1.len(), 129);
    assert_eq!(trie.insert(&pfx), Ok(()));
    let found = trie.match_longest_prefix(&Prefix::new(net | (1 << 80), 48)).map(|p| (p.net, p.len));
    assert_eq!(found, Some((net, 32)));
    assert_eq!(trie.match_longest_prefix(&Prefix::new(net, 31)).map(|p| p.len), None);
}

#[test]
fn address_families_name_their_protocol_version() {
    assert_eq!(<u32 as AddressFamily>::get_family(), 4);
    assert_eq!(<u128 as AddressFamily>::get_family(), 6);
    assert!(u32::less_than(1, 2));
    assert!(!u32::less_than(2, 2));
    assert!(u128::less_than(0, u128::MAX));
}

#[test]
fn binary_trie_counters_move_by_one() {
    let a = Prefix::<u32, NoMeta>::new(0, 1);
    let b = Prefix::<u32, NoMeta>::new(u32::MAX, 32);
    let mut trie = Trie::new();
    assert!(trie.1.iter().all(|s| s.nodes_num == 0 && s.prefixes_num == 0));
    assert_eq!(trie.insert(&a), Ok(()));
    assert_eq!(trie.insert(&b), Ok(()));
    for level in 1..=32usize {
        assert_eq!(trie.1[level].nodes_num, if level == 1 { 2 } else { 1 });
        assert_eq!(trie.1[level].prefixes_num, if level == 1 || level == 32 { 1 } else { 0 });
    }
    assert_eq!(trie.match_longest_prefix(&b.strip_meta()).map(|p| (p.net, p.len)), Some((u32::MAX, 32)));
}
