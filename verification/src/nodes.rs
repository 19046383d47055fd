//! Plain binary trie nodes, one address bit per level.

use vstd::prelude::*;
use crate::common::Prefix;

verus! {

/// A node that names its prefix by a string.
#[derive(Debug)]
pub struct BinaryNode {
    pub prefix: String,
    pub left: Option<Box<BinaryNode>>,
    pub right: Option<Box<BinaryNode>>,
}

impl BinaryNode {
    pub fn new(b: String) -> (r: BinaryNode)
        ensures
            r.prefix == b,
            r.left.is_none(),
            r.right.is_none(),
    {
        BinaryNode { prefix: b, left: None, right: None }
    }
}

/// A node that owns the IPv4 prefix stored at it.
#[derive(Debug)]
pub struct BinaryNode2<T> {
    pub prefix: Option<Prefix<u32, T>>,
    pub left: Option<Box<BinaryNode2<T>>>,
    pub right: Option<Box<BinaryNode2<T>>>,
}

impl<T> BinaryNode2<T> {
    /// The node without prefix and without children.
    pub open spec fn empty() -> Self {
        BinaryNode2 { prefix: None, left: None, right: None }
    }

    /// Number of steps that can be taken from this node along `bits`, from bit
    /// `from` on, left for a zero and right for a one.
    pub open spec fn depth_along(self, bits: Seq<bool>, from: int) -> nat
        decreases self,
    {
        if from < 0 || from >= bits.len() {
            0
        } else if bits[from] {
            match self.right {
                Some(r) => 1 + r.depth_along(bits, from + 1),
                None => 0,
            }
        } else {
            match self.left {
                Some(l) => 1 + l.depth_along(bits, from + 1),
                None => 0,
            }
        }
    }

    /// The trie below this node with `pfx` put at the end of the way along
    /// `bits`, from bit `from` on; nodes missing on the way are added.
    pub open spec fn with_prefix(self, bits: Seq<bool>, from: int, pfx: Prefix<u32, T>) -> Self
        decreases bits.len() - from,
    {
        if from < 0 || from >= bits.len() {
            BinaryNode2 { prefix: Some(pfx), left: self.left, right: self.right }
        } else if bits[from] {
            let child = match self.right {
                Some(r) => *r,
                None => Self::empty(),
            };
            BinaryNode2 {
                prefix: self.prefix,
                left: self.left,
                right: Some(Box::new(child.with_prefix(bits, from + 1, pfx))),
            }
        } else {
            let child = match self.left {
                Some(l) => *l,
                None => Self::empty(),
            };
            BinaryNode2 {
                prefix: self.prefix,
                left: Some(Box::new(child.with_prefix(bits, from + 1, pfx))),
                right: self.right,
            }
        }
    }

    /// A node without children, with the prefix of the network and length given.
    pub fn new(pfx: Option<(u32, u8)>) -> (r: BinaryNode2<T>)
        ensures
            r.left.is_none(),
            r.right.is_none(),
            match pfx {
                Some((net, len)) => r.prefix.is_some() && r.prefix.unwrap().net == net && r.prefix.unwrap().len
                    == len && r.prefix.unwrap().meta.is_none(),
                None => r.prefix.is_none(),
            },
    {
        BinaryNode2 {
            prefix: match pfx {
                Some((net, len)) => Some(Prefix::new(net, len)),
                None => None,
            },
            left: None,
            right: None,
        }
    }
}

/// A node that only says whether a prefix ends at it.
#[derive(Debug)]
pub struct TrieNode {
    pub prefix: bool,
    pub left: Option<Box<TrieNode>>,
    pub right: Option<Box<TrieNode>>,
}

impl TrieNode {
    pub fn new(pfx: bool) -> (r: TrieNode)
        ensures
            r.prefix == pfx,
            r.left.is_none(),
            r.right.is_none(),
    {
        TrieNode { prefix: pfx, left: None, right: None }
    }
}

/// A node that borrows the IPv4 prefix stored at it.
pub struct TrieNodePointer<'a, T> {
    pub prefix: Option<&'a Prefix<u32, T>>,
    pub left: Option<Box<TrieNodePointer<'a, T>>>,
    pub right: Option<Box<TrieNodePointer<'a, T>>>,
}

impl<'a, T> TrieNodePointer<'a, T> {
    pub fn new(pfx: Option<&'a Prefix<u32, T>>) -> (r: TrieNodePointer<'a, T>)
        ensures
            r.prefix == pfx,
            r.left.is_none(),
            r.right.is_none(),
    {
        TrieNodePointer { prefix: pfx, left: None, right: None }
    }
}

} // verus!
