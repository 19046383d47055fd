use trie::common::{AddressFamily, NoMeta, Prefix, PrefixAs};
use trie::error::StoreError;
use trie::treebitmap::node::SizedStrideNode;
use trie::treebitmap::stride::Stride;
use trie::treebitmap::tree::{default_strides, expand_strides, TreeBitMap};
use trie::treebitmap::wide::U256;

fn ip(a: u8, b: u8, c: u8, d: u8) -> u32 {
    ((a as u32) << 24) | ((b as u32) << 16) | ((c as u32) << 8) | (d as u32)
}

#[test]
fn default_schedule_consumes_an_ipv4_address() {
    assert_eq!(default_strides(), vec![7, 5, 5, 5, 3, 4, 3]);
    assert_eq!(default_strides().iter().map(|s| *s as u32).sum::<u32>(), 32);
}

fn same<T, U>(found: &Prefix<u32, T>, wanted: &Prefix<u32, U>) -> bool {
    found.len == wanted.len && u32::truncate(found.net, found.len) == u32::truncate(wanted.net, wanted.len)
}

#[test]
fn treebitmap_test_insert_extremes_ipv4() {
    let mut trie = TreeBitMap::<u32, NoMeta>::new(default_strides()).unwrap();
    let min_pfx = Prefix::<u32, NoMeta>::new(ip(0, 0, 0, 0), 1);

    assert_eq!(trie.insert(Prefix::new(min_pfx.net, min_pfx.len)), Ok(()));
    let res = trie.match_longest_prefix(&min_pfx);
    assert_eq!(res.len(), 1);
    assert!(same(res[0], &min_pfx));

    let max_pfx = Prefix::<u32, NoMeta>::new(ip(255, 255, 255, 255), 32);
    assert_eq!(trie.insert(Prefix::new(max_pfx.net, max_pfx.len)), Ok(()));
    let res = trie.match_longest_prefix(&max_pfx);
    assert_eq!(res.len(), 1);
    assert!(same(res[0], &max_pfx));
}

fn tree_prefixes() -> Vec<(u32, u8)> {
    vec![
        (0b0000_0000_0000_0000_0000_0000_0000_0000_u32, 4),
        (0b0001_0000_0000_0000_0000_0000_0000_0000_u32, 4),
        (0b0010_0000_0000_0000_0000_0000_0000_0000_u32, 4),
        (0b0011_0000_0000_0000_0000_0000_0000_0000_u32, 4),
        (0b0100_0000_0000_0000_0000_0000_0000_0000_u32, 4),
        (0b0101_0000_0000_0000_0000_0000_0000_0000_u32, 4),
        (0b0110_0000_0000_0000_0000_0000_0000_0000_u32, 4),
        (0b0111_0000_0000_0000_0000_0000_0000_0000_u32, 4),
        (0b1000_0000_0000_0000_0000_0000_0000_0000_u32, 4),
        (0b1001_0000_0000_0000_0000_0000_0000_0000_u32, 4),
        (0b1010_0000_0000_0000_0000_0000_0000_0000_u32, 4),
        (0b1011_0000_0000_0000_0000_0000_0000_0000_u32, 4),
        (0b1100_0000_0000_0000_0000_0000_0000_0000_u32, 4),
        (0b1101_0000_0000_0000_0000_0000_0000_0000_u32, 4),
        (0b1110_0000_0000_0000_0000_0000_0000_0000_u32, 4),
        (0b1111_0000_0000_0000_0000_0000_0000_0000_u32, 4),
        (0b1111_0000_0000_0000_0000_0000_0000_0000_u32, 9),
        (0b1111_0000_1000_0000_0000_0000_0000_0000_u32, 9),
        (0b0111_0111_1000_0000_0000_0000_0000_0000_u32, 12),
        (0b1111_0000_0000_0000_0000_0000_0000_0000_u32, 9),
        (0b0111_0111_1000_0000_0000_0000_0000_0000_u32, 9),
        (0b0111_0111_1000_0000_0000_0000_0000_0000_u32, 10),
        (0b0111_0111_1000_0000_0000_0000_0000_0000_u32, 11),
        (0b0111_0111_1000_0000_0000_0000_0000_0000_u32, 12),
        (0b0111_0111_0000_0000_0000_0000_0000_0000_u32, 12),
        (0b0111_0111_0000_0000_0000_0000_0000_0000_u32, 13),
        (0b0111_0111_1000_0000_0000_0000_0000_0000_u32, 13),
        (0b0111_0111_0000_0000_0000_0000_0000_0000_u32, 14),
        (0b0111_0111_0100_0000_0000_0000_0000_0000_u32, 14),
        (0b0111_0111_1000_0000_0000_0000_0000_0000_u32, 14),
        (0b0111_0111_1100_0000_0000_0000_0000_0000_u32, 14),
        (0b1110_0000_0000_0000_0000_0000_0000_0000_u32, 4),
        (ip(192, 0, 0, 0), 23),
        (ip(192, 0, 0, 0), 16),
        (ip(192, 0, 10, 0), 23),
        (ip(192, 0, 9, 0), 24),
        (ip(193, 0, 0, 0), 23),
        (ip(193, 0, 10, 0), 23),
        (ip(209, 0, 0, 0), 16),
        (ip(193, 0, 9, 0), 24),
        (ip(193, 0, 10, 0), 24),
        (ip(193, 0, 14, 0), 23),
        (ip(193, 0, 14, 0), 24),
        (ip(193, 0, 15, 0), 24),
        (ip(193, 0, 10, 10), 32),
        (0b0011_0000_0000_0000_0000_0000_0000_0000_u32, 4),
        (0b1000_0011_1000_1111_0000_0000_0000_0000_u32, 11),
        (0b1000_0010_0101_0111_1111_1000_0000_0000_u32, 13),
        (ip(130, 55, 240, 0), 24),
        (0b1111_1111_0000_0001_0000_0000_0000_0000_u32, 12),
        (0b1111_1111_0011_0111_0000_0000_0000_0000_u32, 17),
        (ip(100, 0, 12, 0), 24),
        (0b0000_0001_0000_0000_0000_0000_0000_0000_u32, 24),
        (ip(1, 0, 128, 0), 24),
    ]
}

#[test]
fn treebitmap_test_tree_ipv4() {
    let mut tree_bitmap: TreeBitMap<u32, PrefixAs> = TreeBitMap::new(default_strides()).unwrap();
    let pfxs: Vec<Prefix<u32, PrefixAs>> =
        tree_prefixes().into_iter().map(|(net, len)| Prefix::new(net, len)).collect();

    for pfx in pfxs.iter() {
        let _ = tree_bitmap.insert(Prefix::new(pfx.net, pfx.len));
    }

    for pfx in pfxs.iter() {
        let pfx_nm = pfx.strip_meta();
        let res = tree_bitmap.match_longest_prefix(&pfx_nm);
        assert!(same(*res.last().unwrap(), pfx));
    }

    let res = tree_bitmap.match_longest_prefix(&Prefix::<u32, NoMeta>::new(ip(192, 0, 1, 0), 24));
    assert!(same(res[2], &Prefix::<u32, PrefixAs>::new(ip(192, 0, 0, 0), 23)));
    assert!(same(res[1], &Prefix::<u32, PrefixAs>::new(ip(192, 0, 0, 0), 16)));
    assert!(same(res[0], &Prefix::<u32, PrefixAs>::new(ip(192, 0, 0, 0), 4)));
}

#[test]
fn treebitmap_test_ranges_ipv4() {
    for i_net in [0, 4, 8, 12, 14, 15, 16, 32, 65, 127, 213, 254 as u8].iter() {
        let mut tree_bitmap: TreeBitMap<u32, NoMeta> = TreeBitMap::new(default_strides()).unwrap();

        let pfx_vec: Vec<Prefix<u32, NoMeta>> = (1..32)
            .collect::<Vec<u8>>()
            .into_iter()
            .map(|i_len| Prefix::<u32, NoMeta>::new(ip(*i_net, 0, 0, 0), i_len))
            .collect();

        let mut i_len_s = 0;
        for pfx in &pfx_vec {
            i_len_s += 1;
            assert_eq!(tree_bitmap.insert(Prefix::new(pfx.net, pfx.len)), Ok(()));

            let res_pfx = Prefix::<u32, NoMeta>::new(ip(*i_net, 0, 0, 0), i_len_s);

            for s_len in i_len_s..32 {
                let pfx = Prefix::<u32, NoMeta>::new(ip(*i_net, 0, 0, 0), s_len);
                let res = tree_bitmap.match_longest_prefix(&pfx);
                println!("{:?}", pfx);

                assert!(same(*res.last().unwrap(), &res_pfx));
            }
        }
    }
}

fn lmp(tree: &TreeBitMap<u32, NoMeta>, net: u32, len: u8) -> Option<(u32, u8)> {
    tree.match_longest_prefix_only(&Prefix::new(net, len)).map(|p| (p.net, p.len))
}

fn tree_of(prefixes: &[(u32, u8)]) -> TreeBitMap<u32, NoMeta> {
    let mut tree = TreeBitMap::<u32, NoMeta>::new(default_strides()).unwrap();
    for (net, len) in prefixes {
        assert_eq!(tree.insert(Prefix::new(*net, *len)), Ok(()));
    }
    tree
}

fn routes() -> Vec<(u32, u8)> {
    vec![
        (ip(192, 0, 0, 0), 23),
        (ip(192, 0, 0, 0), 16),
        (ip(192, 0, 10, 0), 23),
        (ip(192, 0, 9, 0), 24),
        (ip(193, 0, 0, 0), 23),
        (ip(193, 0, 10, 0), 23),
        (ip(209, 0, 0, 0), 16),
    ]
}

#[test]
fn longest_match_takes_the_covering_23() {
    let tree = tree_of(&routes());
    assert_eq!(lmp(&tree, ip(192, 0, 1, 0), 24), Some((ip(192, 0, 0, 0), 23)));
    assert_eq!(lmp(&tree, ip(192, 0, 2, 0), 24), Some((ip(192, 0, 0, 0), 16)));
}

#[test]
fn exact_match_is_longest_match() {
    let tree = tree_of(&routes());
    assert_eq!(lmp(&tree, ip(193, 0, 10, 0), 23), Some((ip(193, 0, 10, 0), 23)));
}

#[test]
fn nested_prefixes_and_default_route() {
    let tree = tree_of(&[(ip(0, 0, 0, 0), 0), (ip(10, 0, 0, 0), 8), (ip(10, 1, 0, 0), 16), (ip(10, 1, 2, 0), 24)]);
    assert_eq!(lmp(&tree, ip(10, 1, 2, 3), 32), Some((ip(10, 1, 2, 0), 24)));
    assert_eq!(lmp(&tree, ip(10, 2, 0, 0), 16), Some((ip(10, 0, 0, 0), 8)));
    assert_eq!(lmp(&tree, ip(11, 0, 0, 0), 8), Some((ip(0, 0, 0, 0), 0)));
}

#[test]
fn all_matches_come_shortest_first() {
    let tree = tree_of(&[(ip(100, 0, 0, 0), 16), (ip(100, 0, 12, 0), 24)]);
    assert_eq!(lmp(&tree, ip(100, 0, 12, 0), 24), Some((ip(100, 0, 12, 0), 24)));
    let all: Vec<(u32, u8)> = tree
        .match_longest_prefix(&Prefix::new(ip(100, 0, 12, 0), 24))
        .into_iter()
        .map(|p| (p.net, p.len))
        .collect();
    assert_eq!(all, vec![(ip(100, 0, 0, 0), 16), (ip(100, 0, 12, 0), 24)]);
}

#[test]
fn disjoint_prefix_does_not_match() {
    let tree = tree_of(&[(ip(1, 0, 128, 0), 24)]);
    assert_eq!(lmp(&tree, ip(1, 0, 0, 0), 24), None);
}

#[test]
fn ipv6_longest_match() {
    assert_eq!(TreeBitMap::<u128, NoMeta>::new(default_strides()).err(), Some(StoreError::InvalidStrideSchedule));
    let mut tree = TreeBitMap::<u128, NoMeta>::new(expand_strides(&default_strides(), 128).unwrap()).unwrap();
    let net: u128 = 0x2001_0db8_0000_0000_0000_0000_0000_0000;
    let query: u128 = 0x2001_0db8_0001_0000_0000_0000_0000_0000;
    assert_eq!(tree.strides.len(), 28);
    assert_eq!(tree.insert(Prefix::new(net, 32)), Ok(()));
    let found = tree.match_longest_prefix_only(&Prefix::new(query, 48)).map(|p| (p.net, p.len));
    assert_eq!(found, Some((net, 32)));
    assert_eq!(tree.match_longest_prefix_only(&Prefix::new(query, 31)).map(|p| p.len), None);
}

#[test]
fn default_route_matches_everything() {
    let mut tree = tree_of(&[(0, 0)]);
    assert_eq!(lmp(&tree, ip(8, 8, 8, 8), 32), Some((0, 0)));
    assert_eq!(lmp(&tree, 0, 0), Some((0, 0)));
    assert_eq!(lmp(&tree, ip(255, 255, 255, 255), 32), Some((0, 0)));
    assert_eq!(tree.insert(Prefix::new(ip(8, 0, 0, 0), 8)), Ok(()));
    assert_eq!(lmp(&tree, ip(8, 8, 8, 8), 32), Some((ip(8, 0, 0, 0), 8)));
    assert_eq!(lmp(&tree, ip(9, 8, 8, 8), 32), Some((0, 0)));
}

#[test]
fn extremes_match_themselves() {
    let tree = tree_of(&[(0, 1), (ip(255, 255, 255, 255), 32)]);
    assert_eq!(lmp(&tree, 0, 1), Some((0, 1)));
    assert_eq!(lmp(&tree, ip(255, 255, 255, 255), 32), Some((ip(255, 255, 255, 255), 32)));
    assert_eq!(lmp(&tree, ip(128, 0, 0, 0), 1), None);
}

#[test]
fn empty_tree_matches_nothing() {
    let tree = tree_of(&[]);
    for (net, len) in [(0u32, 0u8), (0, 32), (ip(10, 0, 0, 1), 32), (u32::MAX, 32), (ip(192, 168, 0, 0), 16)] {
        assert_eq!(lmp(&tree, net, len), None);
        assert!(tree.match_longest_prefix(&Prefix::new(net, len)).is_empty());
    }
}

#[test]
fn every_length_under_one_octet() {
    let mut tree = TreeBitMap::<u32, NoMeta>::new(default_strides()).unwrap();
    for len in 1..=32u8 {
        assert_eq!(tree.insert(Prefix::new(ip(10, 0, 0, 0), len)), Ok(()));
        assert_eq!(lmp(&tree, ip(10, 0, 0, 0), 32), Some((ip(10, 0, 0, 0), len)));
    }
    let all = tree.match_longest_prefix(&Prefix::new(ip(10, 0, 0, 0), 32));
    assert_eq!(all.len(), 32);
    for (i, p) in all.iter().enumerate() {
        assert_eq!(p.len as usize, i + 1);
    }
}

#[test]
fn duplicate_insert_is_reported_and_changes_nothing() {
    let mut tree = tree_of(&routes());
    let nodes = tree.nodes.len();
    let prefixes = tree.prefixes.len();
    assert_eq!(tree.insert(Prefix::new(ip(192, 0, 0, 0), 16)), Err(StoreError::Duplicate));
    assert_eq!(tree.insert(Prefix::new(ip(192, 0, 255, 255), 16)), Err(StoreError::Duplicate));
    assert_eq!(tree.nodes.len(), nodes);
    assert_eq!(tree.prefixes.len(), prefixes);
    assert_eq!(lmp(&tree, ip(192, 0, 1, 0), 24), Some((ip(192, 0, 0, 0), 23)));
}

#[test]
fn too_long_prefix_is_refused() {
    let mut tree = tree_of(&[]);
    assert_eq!(tree.insert(Prefix::new(0, 33)), Err(StoreError::InvalidPrefix));
    assert_eq!(tree.prefixes.len(), 0);
    assert_eq!(lmp(&tree, 0, 33), None);
}

#[test]
fn stride_schedules_are_checked() {
    assert!(TreeBitMap::<u32, NoMeta>::new(vec![8, 8, 8, 8]).is_ok());
    assert!(TreeBitMap::<u32, NoMeta>::new(vec![4; 8]).is_ok());
    assert!(TreeBitMap::<u32, NoMeta>::new(vec![6, 6, 6, 6, 4, 4]).is_ok());
    assert!(TreeBitMap::<u32, NoMeta>::new(vec![3, 4, 4, 6, 7, 8]).is_ok());
    assert!(TreeBitMap::<u128, NoMeta>::new(vec![8; 16]).is_ok());
    for refused in [
        vec![],
        vec![4],
        vec![5],
        vec![8],
        vec![16, 16],
        vec![8, 8, 8, 6, 2],
        vec![7, 5, 5, 5, 3, 4, 9],
        vec![7, 5, 5, 5, 3, 4],
        vec![7, 5, 5, 5, 3, 4, 3, 3],
        vec![8, 8, 8, 8, 0],
        vec![32],
    ] {
        assert_eq!(TreeBitMap::<u32, NoMeta>::new(refused).err(), Some(StoreError::InvalidStrideSchedule));
    }
    assert_eq!(TreeBitMap::<u128, NoMeta>::new(vec![8, 8, 8, 8]).err(), Some(StoreError::InvalidStrideSchedule));
    assert_eq!(TreeBitMap::<u32, NoMeta>::new(vec![7, 5, 5, 5, 3, 4, 3]).unwrap().strides, vec![7, 5, 5, 5, 3, 4, 3]);
}

#[test]
fn all_stride_widths_agree() {
    let schedules: Vec<Vec<u8>> =
        vec![vec![8], vec![4], vec![6, 6, 6, 6, 4, 4], vec![3, 4, 4, 6, 7, 8], vec![7, 5, 5, 5, 3, 4, 3], vec![5, 3]];
    let prefixes = tree_prefixes();
    let mut reference: Vec<Option<(u32, u8)>> = Vec::new();
    for (n, schedule) in schedules.iter().enumerate() {
        let mut tree = TreeBitMap::<u32, NoMeta>::new(expand_strides(schedule, 32).unwrap()).unwrap();
        for (net, len) in prefixes.iter() {
            let _ = tree.insert(Prefix::new(*net, *len));
        }
        let mut answers = Vec::new();
        for (net, _) in prefixes.iter() {
            for len in [0u8, 3, 8, 12, 16, 23, 24, 32] {
                answers.push(lmp(&tree, *net, len).map(|(n, l)| (u32::truncate(n, l), l)));
            }
        }
        if n == 0 {
            reference = answers;
        } else {
            assert_eq!(reference, answers);
        }
    }
}

#[test]
fn statistics_count_nodes_and_prefixes_per_level() {
    let tree = tree_of(&[(ip(10, 0, 0, 0), 8), (ip(10, 1, 0, 0), 16), (ip(10, 1, 2, 0), 24), (ip(127, 0, 0, 0), 7)]);
    assert_eq!(tree.stats.len(), 6);
    let nodes = |stride: usize, level: usize| tree.stats[stride - 3].created_nodes[level].count;
    let prefixes = |stride: usize, level: usize| tree.stats[stride - 3].prefixes_num[level].count;
    assert_eq!(nodes(7, 0), 1);
    assert_eq!(nodes(5, 1), 1);
    assert_eq!(nodes(5, 2), 1);
    assert_eq!(nodes(5, 3), 1);
    assert_eq!(nodes(3, 4), 1);
    assert_eq!(nodes(4, 5), 0);
    assert_eq!(nodes(8, 0), 0);
    assert_eq!(prefixes(7, 0), 1);
    assert_eq!(prefixes(5, 1), 1);
    assert_eq!(prefixes(5, 2), 1);
    assert_eq!(prefixes(5, 3), 0);
    assert_eq!(prefixes(3, 4), 1);
    assert_eq!(prefixes(5, 0), 0);
    assert_eq!(tree.nodes.len(), 5);
    assert_eq!(tree.prefixes.len(), 4);
    assert_eq!(tree.stats[2].mem_usage(), 64 * 3);
    assert_eq!(tree.stats[0].mem_usage(), 16);
    assert_eq!(tree.stats[4].mem_usage(), 256);
    assert_eq!(tree.stats[0].created_nodes.len(), 7);
}

#[test]
fn arenas_hand_out_their_entries_by_index() {
    let mut tree = tree_of(&[(ip(10, 0, 0, 0), 8), (ip(10, 1, 0, 0), 16)]);
    assert_eq!(tree.retrieve_prefix(0).map(|p| (p.net, p.len)), Some((ip(10, 0, 0, 0), 8)));
    assert_eq!(tree.retrieve_prefix(1).map(|p| (p.net, p.len)), Some((ip(10, 1, 0, 0), 16)));
    assert!(tree.retrieve_prefix(2).is_none());
    assert!(tree.retrieve_node(0).is_some());
    assert_eq!(tree.retrieve_node(0).map(|n| n.stride()), Some(7));
    assert_eq!(tree.retrieve_node(1).map(|n| n.stride()), Some(5));
    assert!(tree.retrieve_node(3).is_none());
    assert!(tree.retrieve_node_mut(3).is_none());
    assert_eq!(tree.retrieve_node_mut(2).map(|n| n.stride()), Some(5));
    if let Some(pfx) = tree.retrieve_prefix_mut(1) {
        pfx.meta = Some(NoMeta);
    }
    assert_eq!(tree.retrieve_prefix(1).map(|p| p.meta.is_some()), Some(true));
    assert!(tree.retrieve_prefix_mut(9).is_none());
    assert_eq!(lmp(&tree, ip(10, 1, 9, 9), 32), Some((ip(10, 1, 0, 0), 16)));
}

#[test]
fn arenas_grow_by_appending() {
    let mut tree = tree_of(&[(ip(10, 0, 0, 0), 8)]);
    assert_eq!(tree.store_prefix(Prefix::new(ip(11, 0, 0, 0), 8)), 1);
    assert_eq!(tree.store_prefix(Prefix::new(ip(12, 0, 0, 0), 8)), 2);
    assert_eq!(tree.prefixes.len(), 3);
    let nodes = tree.nodes.len() as u32;
    assert_eq!(tree.store_node(SizedStrideNode::empty(4)), nodes);
    assert_eq!(tree.retrieve_node(nodes).map(|n| n.stride()), Some(4));
}

fn ones_and_lengths(node: &SizedStrideNode<u32>) -> (u32, usize, u32, usize) {
    match node {
        SizedStrideNode::Stride3(n) => (n.pfxbitarr.count_ones(), n.pfx_vec.len(), n.ptrbitarr.count_ones(), n.ptr_vec.len()),
        SizedStrideNode::Stride4(n) => (n.pfxbitarr.count_ones(), n.pfx_vec.len(), n.ptrbitarr.count_ones(), n.ptr_vec.len()),
        SizedStrideNode::Stride5(n) => (n.pfxbitarr.count_ones(), n.pfx_vec.len(), n.ptrbitarr.count_ones(), n.ptr_vec.len()),
        SizedStrideNode::Stride6(n) => (n.pfxbitarr.count_ones(), n.pfx_vec.len(), n.ptrbitarr.count_ones(), n.ptr_vec.len()),
        SizedStrideNode::Stride7(n) => (
            n.pfxbitarr.0.count_ones() + n.pfxbitarr.1.count_ones(),
            n.pfx_vec.len(),
            n.ptrbitarr.count_ones(),
            n.ptr_vec.len(),
        ),
        SizedStrideNode::Stride8(n) => (
            n.pfxbitarr.0.count_ones() + n.pfxbitarr.1.count_ones() + n.pfxbitarr.2.count_ones() + n.pfxbitarr.3.count_ones(),
            n.pfx_vec.len(),
            n.ptrbitarr.0.count_ones() + n.ptrbitarr.1.count_ones(),
            n.ptr_vec.len(),
        ),
    }
}

#[test]
fn bitmaps_and_vectors_stay_coherent() {
    for schedule in [vec![7, 5, 5, 5, 3, 4, 3], vec![8], vec![6, 6, 6, 6, 4, 4], vec![3, 4, 4, 6, 7, 8]] {
        let mut tree = TreeBitMap::<u32, NoMeta>::new(expand_strides(&schedule, 32).unwrap()).unwrap();
        for (net, len) in tree_prefixes() {
            let _ = tree.insert(Prefix::new(net, len));
            for node in tree.nodes.iter() {
                let (pfx_ones, pfx_len, ptr_ones, ptr_len) = ones_and_lengths(node);
                assert_eq!(pfx_ones as usize, pfx_len);
                assert_eq!(ptr_ones as usize, ptr_len);
            }
        }
        let entries: usize = tree.nodes.iter().map(|n| ones_and_lengths(n).1).sum();
        let links: usize = tree.nodes.iter().map(|n| ones_and_lengths(n).3).sum();
        assert_eq!(entries, tree.prefixes.len());
        assert_eq!(links + 1, tree.nodes.len());
    }
}

#[test]
fn index_formulas_find_the_entry_of_each_slot() {
    let tree = tree_of(&[(ip(128, 0, 0, 0), 1), (0, 2), (0, 1), (ip(64, 0, 0, 0), 2), (ip(254, 0, 0, 0), 7), (0, 0)]);
    let root = match tree.retrieve_node(0).unwrap() {
        SizedStrideNode::Stride7(node) => node,
        _ => panic!("the root of this schedule is seven bits wide"),
    };
    assert_eq!(root.pfx_vec.len(), 6);
    for (nibble, len, net, pfx_len) in
        [(0u32, 0u8, 0u32, 0u8), (0, 1, 0, 1), (1, 1, 1, 1), (0, 2, 0, 2), (1, 2, 1, 2), (127, 7, 127, 7)]
    {
        let at = <U256 as Stride>::get_pfx_index(root.pfxbitarr, nibble, len).unwrap();
        let (key, index) = root.pfx_vec[at];
        assert_eq!(key, net);
        let stored = tree.retrieve_prefix(index).unwrap();
        assert_eq!((u32::truncate(stored.net, stored.len), stored.len), (net, pfx_len));
    }
    assert_eq!(
        root.pfx_vec.iter().map(|e| e.1).collect::<Vec<u32>>(),
        vec![5, 2, 0, 1, 3, 4]
    );
    assert!(<U256 as Stride>::get_pfx_index(root.pfxbitarr, 1, 3).is_err());

    let deep = tree_of(&[(ip(10, 0, 0, 0), 8), (ip(10, 128, 0, 0), 9), (ip(11, 0, 0, 0), 8), (ip(8, 0, 0, 0), 24)]);
    let root = match deep.retrieve_node(0).unwrap() {
        SizedStrideNode::Stride7(node) => node,
        _ => panic!("the root of this schedule is seven bits wide"),
    };
    assert_eq!(root.ptr_vec.len(), 2);
    for (nibble, rank) in [(4u32, 0usize), (5, 1)] {
        let at = <U256 as Stride>::get_ptr_index(root.ptrbitarr, nibble).unwrap();
        assert_eq!(at, rank);
        assert_eq!(root.ptr_vec[at].0 as u32, 127 + nibble);
        let child = deep.retrieve_node(root.ptr_vec[at].1).unwrap();
        assert_eq!(child.stride(), 5);
    }
    assert!(<U256 as Stride>::get_ptr_index(root.ptrbitarr, 6).is_err());
}

#[test]
fn patterns_are_repeated_to_the_width_of_the_address() {
    assert_eq!(expand_strides(&vec![8], 32), Some(vec![8, 8, 8, 8]));
    assert_eq!(expand_strides(&vec![4], 32), Some(vec![4; 8]));
    assert_eq!(expand_strides(&vec![5, 3], 32), Some(vec![5, 3, 5, 3, 5, 3, 5, 3]));
    assert_eq!(expand_strides(&default_strides(), 32), Some(default_strides()));
    assert_eq!(expand_strides(&default_strides(), 128).map(|s| s.len()), Some(28));
    assert_eq!(expand_strides(&vec![6, 6, 6, 6, 4, 4], 32), Some(vec![6, 6, 6, 6, 4, 4]));
    assert_eq!(expand_strides(&vec![5], 32), None);
    assert_eq!(expand_strides(&vec![], 32), None);
    assert_eq!(expand_strides(&vec![8, 2], 32), None);
    assert_eq!(expand_strides(&vec![9], 36), None);
    assert_eq!(expand_strides(&vec![7], 32), None);
}

#[test]
fn an_insert_adds_no_more_nodes_than_it_passes_levels() {
    let mut tree = TreeBitMap::<u32, NoMeta>::new(default_strides()).unwrap();
    assert_eq!(tree.insert(Prefix::new(0x0200_0000, 7)), Ok(()));
    assert_eq!((tree.nodes.len(), tree.prefixes.len()), (1, 1));
    assert_eq!((tree.prefixes[0].net, tree.prefixes[0].len), (0x0200_0000, 7));
    assert_eq!(tree.insert(Prefix::new(0, 0)), Ok(()));
    assert_eq!((tree.nodes.len(), tree.prefixes.len()), (1, 2));
    assert_eq!(tree.insert(Prefix::new(0x0300_0000, 8)), Ok(()));
    assert_eq!(tree.nodes.len(), 2);
    assert_eq!(tree.insert(Prefix::new(0x0300_0000, 12)), Ok(()));
    assert_eq!(tree.nodes.len(), 2);
    assert_eq!(tree.insert(Prefix::new(ip(200, 1, 2, 3), 32)), Ok(()));
    assert_eq!(tree.nodes.len(), 8);
    assert_eq!(tree.insert(Prefix::new(ip(200, 1, 2, 2), 31)), Ok(()));
    assert_eq!(tree.nodes.len(), 8);
    assert_eq!(tree.insert(Prefix::new(ip(200, 1, 2, 3), 40)), Err(StoreError::InvalidPrefix));
    assert_eq!((tree.nodes.len(), tree.prefixes.len()), (8, 6));
}
