use trie::common::{AddressFamily, NoMeta, Prefix, PrefixAs, Trie};
use trie::error::StoreError;
use trie::radixtrie::{LevelStats, RadixTrie, RadixTrieNode};
use trie::treebitmap::tree::TreeBitMap;

fn ip(a: u8, b: u8, c: u8, d: u8) -> u32 {
    ((a as u32) << 24) | ((b as u32) << 16) | ((c as u32) << 8) | (d as u32)
}

fn same<T, U>(found: &Prefix<u32, T>, wanted: &Prefix<u32, U>) -> bool {
    found.len == wanted.len && u32::truncate(found.net, found.len) == u32::truncate(wanted.net, wanted.len)
}

#[test]
fn radix_test_insert_extremes_ipv4() {
    let min_pfx = Prefix::<u32, NoMeta>::new(ip(0, 0, 0, 0), 1);
    let max_pfx = Prefix::<u32, NoMeta>::new(ip(255, 255, 255, 255), 32);
    let mut trie = RadixTrie::<u32, NoMeta>::new();

    assert_eq!(trie.insert(&min_pfx), Ok(()));
    let res = trie.match_longest_prefix(&min_pfx).unwrap();
    assert!(same(res, &min_pfx));

    assert_eq!(trie.insert(&max_pfx), Ok(()));
    let res = trie.match_longest_prefix(&max_pfx).unwrap();
    assert!(same(res, &max_pfx));
}

fn radix_prefixes() -> Vec<Prefix<u32, PrefixAs>> {
    vec![
        Prefix::new(ip(192, 0, 0, 0), 23),
        Prefix::new(ip(192, 0, 0, 0), 4),
        Prefix::new(ip(192, 0, 0, 0), 16),
        Prefix::new(ip(192, 0, 10, 0), 23),
        Prefix::new(ip(192, 0, 9, 0), 24),
        Prefix::new(ip(193, 0, 0, 0), 23),
        Prefix::new(ip(193, 0, 10, 0), 23),
        Prefix::new(ip(209, 0, 0, 0), 16),
        Prefix::new(ip(193, 0, 9, 0), 24),
        Prefix::new(ip(193, 0, 10, 0), 24),
        Prefix::new(ip(193, 0, 14, 0), 23),
        Prefix::new(ip(193, 0, 14, 0), 24),
        Prefix::new(ip(193, 0, 15, 0), 24),
        Prefix::new(ip(193, 0, 10, 10), 32),
    ]
}

#[test]
fn radix_test_tree_ipv4() {
    let pfxs = radix_prefixes();
    let mut trie: RadixTrie<u32, PrefixAs> = RadixTrie::new();

    for pfx in pfxs.iter() {
        assert_eq!(trie.insert(pfx), Ok(()));
    }

    for pfx in pfxs.iter() {
        let pfx_nm = pfx.strip_meta();
        let res = trie.match_longest_prefix(&pfx_nm).unwrap();
        assert!(same(res, pfx));
    }

    let res = trie.match_longest_prefix(&Prefix::<u32, NoMeta>::new(ip(192, 0, 1, 0), 24)).unwrap();
    assert!(same(res, &Prefix::<u32, PrefixAs>::new(ip(192, 0, 0, 0), 23)));
    let res = trie.match_longest_prefix(&Prefix::<u32, NoMeta>::new(ip(192, 0, 2, 0), 24)).unwrap();
    assert!(same(res, &Prefix::<u32, PrefixAs>::new(ip(192, 0, 0, 0), 16)));
}

#[test]
fn radix_test_ranges_ipv4() {
    for i_net in [0, 4, 8, 12, 14, 15, 16, 32, 65, 127, 213, 254 as u8].iter() {
        let pfx_vec: Vec<Prefix<u32, NoMeta>> = (1..32)
            .collect::<Vec<u8>>()
            .into_iter()
            .map(|i_len| Prefix::<u32, NoMeta>::new(ip(*i_net, 0, 0, 0), i_len))
            .collect();
        let mut tree_bitmap: RadixTrie<u32, NoMeta> = RadixTrie::new();

        let mut i_len_s = 0;
        for pfx in &pfx_vec {
            i_len_s += 1;
            assert_eq!(tree_bitmap.insert(pfx), Ok(()));

            let res_pfx = Prefix::<u32, NoMeta>::new(ip(*i_net, 0, 0, 0), i_len_s);

            for s_len in i_len_s..32 {
                let pfx = Prefix::<u32, NoMeta>::new(ip(*i_net, 0, 0, 0), s_len);
                let res = tree_bitmap.match_longest_prefix(&pfx);
                println!("{:?}", pfx);

                assert!(same(res.unwrap(), &res_pfx));
            }
        }
    }
}

#[test]
fn radix_node_starts_at_the_root() {
    let node = RadixTrieNode::<u32, NoMeta>::new(None);
    assert_eq!((node.bit_pos, node.bit_id), (0, 0));
    assert!(node.prefix.is_none() && node.left.is_none() && node.right.is_none());
}

#[test]
fn radix_splits_where_prefixes_part() {
    let a = Prefix::<u32, NoMeta>::new(ip(192, 0, 10, 0), 24);
    let b = Prefix::<u32, NoMeta>::new(ip(192, 0, 9, 0), 24);
    let c = Prefix::<u32, NoMeta>::new(ip(192, 0, 0, 0), 16);
    let mut trie = RadixTrie::new();
    assert_eq!(trie.insert(&a), Ok(()));
    assert_eq!(trie.0.right.as_ref().map(|n| (n.bit_pos, n.bit_id)), Some((24, 0xc0_00_0a)));
    assert_eq!(trie.insert(&b), Ok(()));
    let mid = trie.0.right.as_ref().unwrap();
    assert_eq!((mid.bit_pos, mid.bit_id, mid.prefix.is_some()), (22, 0xc0_00_08 >> 2, false));
    assert_eq!(mid.left.as_ref().map(|n| n.bit_id), Some(0xc0_00_09));
    assert_eq!(mid.right.as_ref().map(|n| n.bit_id), Some(0xc0_00_0a));
    assert_eq!(trie.insert(&c), Ok(()));
    let top = trie.0.right.as_ref().unwrap();
    assert_eq!((top.bit_pos, top.bit_id, top.prefix.is_some()), (16, 0xc0_00, true));
    assert_eq!(top.left.as_ref().map(|n| n.bit_pos), Some(22));
    assert!(top.right.is_none());
    assert_eq!(trie.1[0], LevelStats { level: 0, compression: 16, nodes_num: 1, prefixes_num: 1 });
    assert_eq!(trie.1[1], LevelStats { level: 1, compression: 48, nodes_num: 2, prefixes_num: 2 });
    assert_eq!(trie.1[2], LevelStats { level: 2, compression: 0, nodes_num: 1, prefixes_num: 0 });
    assert_eq!(trie.1[3], LevelStats { level: 3, compression: 0, nodes_num: 0, prefixes_num: 0 });
    let counts = trie.traverse_count();
    assert_eq!(counts.len(), 33);
    assert_eq!(counts[0], (1, 0));
    assert_eq!(counts[16], (1, 1));
    assert_eq!(counts[22], (2, 0));
    assert_eq!(counts[24], (0, 2));
    assert_eq!(counts[23], (0, 0));
}

#[test]
fn radix_reports_duplicates_and_invalid_prefixes() {
    let first = Prefix::<u32, PrefixAs>::new_with_meta(ip(10, 0, 0, 0), 8, PrefixAs(1));
    let second = Prefix::<u32, PrefixAs>::new_with_meta(ip(10, 200, 0, 0), 8, PrefixAs(2));
    let default = Prefix::<u32, PrefixAs>::new_with_meta(0, 0, PrefixAs(3));
    let too_long = Prefix::<u32, PrefixAs>::new(0, 33);
    let mut trie = RadixTrie::new();
    assert_eq!(trie.insert(&first), Ok(()));
    assert_eq!(trie.insert(&second), Err(StoreError::Duplicate));
    assert_eq!(trie.insert(&default), Ok(()));
    assert_eq!(trie.insert(&default), Err(StoreError::Duplicate));
    assert_eq!(trie.insert(&too_long), Err(StoreError::InvalidPrefix));
    assert_eq!(trie.match_longest_prefix(&Prefix::new(ip(10, 1, 1, 1), 32)).and_then(|p| p.meta), Some(PrefixAs(1)));
    assert_eq!(trie.match_longest_prefix(&Prefix::new(ip(11, 1, 1, 1), 32)).and_then(|p| p.meta), Some(PrefixAs(3)));
    assert_eq!(trie.match_longest_prefix(&Prefix::new(ip(10, 0, 0, 0), 7)).and_then(|p| p.meta), Some(PrefixAs(3)));
    assert!(trie.match_longest_prefix(&Prefix::new(0, 33)).is_none());
    assert_eq!(trie.1[0], LevelStats { level: 0, compression: 0, nodes_num: 0, prefixes_num: 1 });
    assert_eq!(trie.1[1], LevelStats { level: 1, compression: 8, nodes_num: 1, prefixes_num: 1 });
}

#[test]
fn radix_ipv6() {
    let net: u128 = 0x2001_0db8 << 96;
    let pfx = Prefix::<u128, NoMeta>::new(net, 32);
    let other = Prefix::<u128, NoMeta>::new(net | (1 << 95), 33);
    let mut trie = RadixTrie::new();
    assert_eq!(trie.insert(&other), Ok(()));
    assert_eq!(trie.insert(&pfx), Ok(()));
    let found = trie.match_longest_prefix(&Prefix::new(net | (1 << 80), 48)).map(|p| (p.net, p.len));
    assert_eq!(found, Some((net, 32)));
    let found = trie.match_longest_prefix(&Prefix::new(net | (1 << 95) | 7, 128)).map(|p| p.len);
    assert_eq!(found, Some(33));
}

fn next(seed: &mut u64) -> u32 {
    *seed = seed.wrapping_mul(6364136223846793005).wrapping_add(1442695040888963407);
    (*seed >> 32) as u32
}

fn naive(prefixes: &[Prefix<u32, NoMeta>], net: u32, len: u8) -> Option<(u32, u8)> {
    let mut best: Option<(u32, u8)> = None;
    for p in prefixes {
        if p.len <= len && u32::truncate(p.net, p.len) == u32::truncate(net, p.len) {
            if best.map_or(true, |(_, l)| l < p.len) {
                best = Some((u32::truncate(p.net, p.len), p.len));
            }
        }
    }
    best
}

#[test]
fn the_three_stores_agree_with_a_linear_scan() {
    let mut seed = 0x5eed_u64;
    let mut prefixes: Vec<Prefix<u32, NoMeta>> = Vec::new();
    for _ in 0..600 {
        let len = (next(&mut seed) % 33) as u8;
        let net = if next(&mut seed) % 3 == 0 { next(&mut seed) } else { next(&mut seed) & 0xff03_0000 };
        prefixes.push(Prefix::new(net, len));
    }
    let mut tree = TreeBitMap::<u32, NoMeta>::new(vec![7, 5, 5, 5, 3, 4, 3]).unwrap();
    let mut wide = TreeBitMap::<u32, NoMeta>::new(vec![8, 8, 8, 8]).unwrap();
    let mut trie = Trie::new();
    let mut radix = RadixTrie::new();
    for p in prefixes.iter() {
        let a = tree.insert(Prefix::new(p.net, p.len));
        let b = trie.insert(p);
        let c = radix.insert(p);
        let d = wide.insert(Prefix::new(p.net, p.len));
        assert_eq!(a, b);
        assert_eq!(a, c);
        assert_eq!(a, d);
    }
    for _ in 0..3000 {
        let len = (next(&mut seed) % 33) as u8;
        let net = if next(&mut seed) % 2 == 0 { next(&mut seed) } else { next(&mut seed) & 0xff03_ffff };
        let query = Prefix::<u32, NoMeta>::new(net, len);
        let wanted = naive(&prefixes, net, len);
        let canon = |p: &Prefix<u32, NoMeta>| (u32::truncate(p.net, p.len), p.len);
        assert_eq!(tree.match_longest_prefix_only(&query).map(canon), wanted);
        assert_eq!(wide.match_longest_prefix_only(&query).map(canon), wanted);
        assert_eq!(trie.match_longest_prefix(&query).map(canon), wanted);
        assert_eq!(radix.match_longest_prefix(&query).map(canon), wanted);
        let all = tree.match_longest_prefix(&query);
        assert_eq!(all.last().map(|p| canon(p)), wanted);
        for pair in all.windows(2) {
            assert!(pair[0].len < pair[1].len);
        }
    }
}

#[test]
fn stores_with_room_are_not_full() {
    let pfx = Prefix::<u32, NoMeta>::new(ip(10, 0, 0, 0), 8);
    let mut tree = TreeBitMap::<u32, NoMeta>::new(vec![4; 8]).unwrap();
    let mut trie = Trie::new();
    let mut radix = RadixTrie::new();
    assert!(!tree.is_full() && !trie.is_full() && !radix.is_full());
    assert_eq!(tree.insert(Prefix::new(pfx.net, pfx.len)), Ok(()));
    assert_eq!(trie.insert(&pfx), Ok(()));
    assert_eq!(radix.insert(&pfx), Ok(()));
    assert!(!tree.is_full() && !trie.is_full() && !radix.is_full());
    trie.1[8].prefixes_num = u32::MAX;
    radix.1[32].nodes_num = u32::MAX;
    assert!(trie.is_full() && radix.is_full());
    radix.1[32].nodes_num = 0;
    assert!(!radix.is_full());
    radix.1[3].compression = u16::MAX - 32;
    assert!(!radix.is_full());
    radix.1[3].compression = u16::MAX - 31;
    assert!(radix.is_full());
}

#[test]
fn radix_counters_follow_the_levels_of_the_walk() {
    let a = Prefix::<u32, NoMeta>::new(ip(192, 0, 10, 0), 24);
    let b = Prefix::<u32, NoMeta>::new(ip(192, 0, 9, 0), 24);
    let mid = Prefix::<u32, NoMeta>::new(ip(192, 0, 8, 0), 22);
    let deep = Prefix::<u32, NoMeta>::new(ip(192, 0, 10, 128), 25);
    let mut trie = RadixTrie::new();
    assert!(trie.1.iter().all(|s| s.nodes_num == 0 && s.prefixes_num == 0 && s.compression == 0));
    assert_eq!(trie.1.len(), 33);
    assert_eq!(trie.insert(&a), Ok(()));
    assert_eq!(trie.1[1], LevelStats { level: 1, compression: 24, nodes_num: 1, prefixes_num: 1 });
    assert_eq!(trie.insert(&b), Ok(()));
    assert_eq!(trie.1[1], LevelStats { level: 1, compression: 48, nodes_num: 2, prefixes_num: 2 });
    assert_eq!(trie.1[2], LevelStats { level: 2, compression: 0, nodes_num: 1, prefixes_num: 0 });
    assert_eq!(trie.insert(&mid), Ok(()));
    assert_eq!(trie.1[0], LevelStats { level: 0, compression: 0, nodes_num: 0, prefixes_num: 1 });
    assert_eq!(trie.1[1], LevelStats { level: 1, compression: 48, nodes_num: 2, prefixes_num: 2 });
    assert_eq!(trie.insert(&deep), Ok(()));
    assert_eq!(trie.1[3], LevelStats { level: 3, compression: 23, nodes_num: 1, prefixes_num: 1 });
    let before: Vec<LevelStats> = trie.1.clone();
    assert_eq!(trie.insert(&deep), Err(StoreError::Duplicate));
    assert_eq!(trie.1, before);
    let found = trie.match_longest_prefix(&Prefix::new(ip(192, 0, 10, 200), 32)).map(|p| p.len);
    assert_eq!(found, Some(25));
}
