use std::cmp::Ordering;
use trie::common::{IPv4, Meta, NoMeta, Prefix, PrefixAs};

fn ip(a: u8, b: u8, c: u8, d: u8) -> u32 {
    ((a as u32) << 24) | ((b as u32) << 16) | ((c as u32) << 8) | (d as u32)
}

#[test]
fn host_bits_do_not_tell_prefixes_apart() {
    let a = Prefix::<u32, NoMeta>::new(ip(10, 0, 0, 1), 8);
    let b = Prefix::<u32, NoMeta>::new(ip(10, 255, 0, 0), 8);
    assert_eq!(a, b);
    assert_eq!(a.partial_cmp(&b), Some(Ordering::Equal));
    assert_eq!(a.canonical_net(), 10);
    let c = Prefix::<u32, NoMeta>::new(ip(10, 128, 0, 0), 9);
    let d = Prefix::<u32, NoMeta>::new(ip(10, 0, 0, 0), 9);
    assert_ne!(c, d);
    assert_eq!(Prefix::<u128, NoMeta>::new(1 << 127, 1), Prefix::new(u128::MAX, 1));
    assert_eq!(Prefix::<u32, NoMeta>::new(1, 0), Prefix::new(u32::MAX, 0));
}

#[test]
fn metadata_does_not_tell_prefixes_apart() {
    let a = Prefix::<u32, PrefixAs>::new_with_meta(ip(10, 0, 0, 0), 8, PrefixAs(1));
    let b = Prefix::<u32, PrefixAs>::new_with_meta(ip(10, 0, 0, 0), 8, PrefixAs(2));
    let c = Prefix::<u32, PrefixAs>::new(ip(10, 0, 0, 0), 8);
    assert_eq!(a, b);
    assert_eq!(a, c);
}

#[test]
fn length_tells_prefixes_apart() {
    let a = Prefix::<u32, NoMeta>::new(0, 1);
    let b = Prefix::<u32, NoMeta>::new(0, 2);
    assert_ne!(a, b);
    assert_eq!(a.partial_cmp(&b), Some(Ordering::Less));
    assert_eq!(b.partial_cmp(&a), Some(Ordering::Greater));
    assert!(a < b);
}

#[test]
fn prefixes_are_ordered_by_their_leading_bits() {
    let a = Prefix::<u32, NoMeta>::new(ip(10, 0, 0, 0), 8);
    let b = Prefix::<u32, NoMeta>::new(ip(11, 0, 0, 0), 8);
    let c = Prefix::<u32, NoMeta>::new(ip(10, 0, 0, 0), 16);
    let d = Prefix::<u32, NoMeta>::new(ip(255, 0, 0, 0), 4);
    assert!(a < b);
    assert!(b > a);
    assert!(a < c);
    assert!(d > a);
    assert_eq!(d.canonical_net(), 15);
    assert_eq!(b.partial_cmp(&c), Some(Ordering::Less));
    assert_eq!(Prefix::<u32, NoMeta>::new(7, 40).canonical_net(), 7);
}

#[test]
fn addresses_combine_bit_by_bit() {
    assert_eq!(IPv4(0xff00_0000) | IPv4(0x0000_00ff), IPv4(0xff00_00ff));
    assert_eq!(IPv4(0) | IPv4(0), IPv4(0));
}

#[test]
fn every_type_can_be_metadata() {
    let pfx = <u64 as Meta<u32>>::with_meta(ip(10, 0, 0, 0), 8, Some(99));
    assert_eq!((pfx.net, pfx.len, pfx.meta), (ip(10, 0, 0, 0), 8, Some(99)));
    let pfx = <NoMeta as Meta<u128>>::with_meta(5, 128, None);
    assert_eq!((pfx.net, pfx.len, pfx.meta), (5, 128, None));
}
