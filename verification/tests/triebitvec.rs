use trie::common::{NoMeta, Prefix};
use trie::nodes::{BinaryNode, BinaryNode2, TrieNode, TrieNodePointer};
use trie::triebitvec::{create_trie, insert_prefix, longest_matching_prefix};

fn walk(trie: &BinaryNode2<NoMeta>, net: u32, len: u8) -> (u32, u8) {
    let found = longest_matching_prefix(&Prefix::new(net, len), trie);
    assert!(found.meta.is_none());
    (found.net, found.len)
}

#[test]
fn plain_nodes_start_without_children() {
    let node = BinaryNode::new(String::from("10/8"));
    assert_eq!(node.prefix, "10/8");
    assert!(node.left.is_none() && node.right.is_none());
    let node = BinaryNode2::<NoMeta>::new(Some((0x0a00_0000, 8)));
    assert_eq!(node.prefix.as_ref().map(|p| (p.net, p.len, p.meta)), Some((0x0a00_0000, 8, None)));
    assert!(node.left.is_none() && node.right.is_none());
    assert!(BinaryNode2::<NoMeta>::new(None).prefix.is_none());
    let node = TrieNode::new(true);
    assert!(node.prefix && node.left.is_none() && node.right.is_none());
    let pfx = Prefix::<u32, NoMeta>::new(7, 32);
    let node = TrieNodePointer::new(Some(&pfx));
    assert_eq!(node.prefix.map(|p| p.net), Some(7));
    assert!(node.left.is_none() && node.right.is_none());
}

#[test]
fn sample_trie_holds_its_three_prefixes() {
    let trie = create_trie();
    assert!(trie.prefix.is_none());
    let zero = trie.left.as_ref().unwrap();
    let four = zero.right.as_ref().unwrap().left.as_ref().unwrap().left.as_ref().unwrap();
    assert_eq!(four.prefix.as_ref().map(|p| (p.net, p.len)), Some((0x4000_0000, 4)));
    assert!(four.left.is_none() && four.right.is_none());
    let mut node = trie.right.as_ref().unwrap();
    for bit in [1, 0, 0, 0, 0, 0, 0] {
        node = if bit == 1 { node.right.as_ref().unwrap() } else { node.left.as_ref().unwrap() };
    }
    assert_eq!(node.prefix.as_ref().map(|p| (p.net, p.len)), Some((0xc000_0000, 8)));
    let mut node = &trie;
    for i in 0..32 {
        let bit = (0xf000_00ffu32 >> (31 - i)) & 1;
        node = if bit == 1 { node.right.as_ref().unwrap() } else { node.left.as_ref().unwrap() };
    }
    assert_eq!(node.prefix.as_ref().map(|p| (p.net, p.len)), Some((0xf000_00ff, 32)));
}

#[test]
fn insert_clears_the_host_bits() {
    let mut trie = BinaryNode2::<NoMeta>::new(None);
    assert_eq!(insert_prefix(&mut trie, 0x4060_70d3, 4), 0x4000_0000);
    assert_eq!(insert_prefix(&mut trie, 0xc003_0020, 8), 0xc000_0000);
    assert_eq!(insert_prefix(&mut trie, 0xffff_ffff, 0), 0);
    assert_eq!(insert_prefix(&mut trie, 0xf000_00ff, 32), 0xf000_00ff);
    assert_eq!(insert_prefix(&mut trie, 0xffff_ffff, 31), 0xffff_fffe);
    assert_eq!(trie.prefix.as_ref().map(|p| (p.net, p.len)), Some((0, 0)));
}

#[test]
fn walks_follow_the_lowest_bits_of_the_query() {
    let trie = create_trie();
    assert_eq!(walk(&trie, 0b0100_0001_0000_0000_0000_0000_1111_1111, 32), (0x4000_0000, 4));
    assert_eq!(walk(&trie, 0x400a_0a0a, 32), (0x4000_0000, 4));
    assert_eq!(walk(&trie, 0xc0, 8), (0xc000_0000, 8));
    assert_eq!(walk(&trie, 0xc000_0000, 8), (0, 1));
    assert_eq!(walk(&trie, 0xf000_00ff, 32), (0xf000_00ff, 32));
    assert_eq!(walk(&trie, 0xf000_00fe, 32), (0xf000_00fe, 31));
    assert_eq!(walk(&trie, 0b11, 2), (0xc000_0000, 2));
    assert_eq!(walk(&trie, 0b10, 2), (0x8000_0000, 1));
    assert_eq!(walk(&trie, 1, 1), (0x8000_0000, 1));
    assert_eq!(walk(&BinaryNode2::new(None), 0xffff_ffff, 32), (0, 0));
}
