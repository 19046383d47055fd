//! Counters of allocated nodes and stored prefixes, per stride width and tree level.

use vstd::prelude::*;

verus! {

/// The six stride widths.
#[derive(Debug, Clone, Copy, PartialEq, Eq, Structural)]
pub enum SizedStride {
    Stride3,
    Stride4,
    Stride5,
    Stride6,
    Stride7,
    Stride8,
}

/// A counter for one tree level.
#[derive(Debug, Clone, Copy, PartialEq, Eq, Structural)]
pub struct CreatedNodes {
    pub depth_level: u8,
    pub count: usize,
}

impl CreatedNodes {
    /// The counter raised by `num`.
    pub fn add(self, num: usize) -> (r: CreatedNodes)
        requires
            self.count + num <= usize::MAX,
        ensures
            r.depth_level == self.depth_level,
            r.count == self.count + num,
    {
        CreatedNodes { depth_level: self.depth_level, count: self.count + num }
    }
}

/// The counters of one stride width.
#[derive(Debug)]
pub struct StrideStats {
    pub stride_type: SizedStride,
    /// Width of the prefix bitmap in bits.
    pub stride_size: usize,
    /// Number of address bits per node.
    pub stride_len: u8,
    /// Width of the prefix bitmap in bytes.
    pub node_size: usize,
    /// Nodes of this width, per level.
    pub created_nodes: Vec<CreatedNodes>,
    /// Prefixes stored in nodes of this width, per level.
    pub prefixes_num: Vec<CreatedNodes>,
}

/// Number of address bits of a stride width.
pub open spec fn stride_len_of(stride_type: SizedStride) -> nat {
    match stride_type {
        SizedStride::Stride3 => 3,
        SizedStride::Stride4 => 4,
        SizedStride::Stride5 => 5,
        SizedStride::Stride6 => 6,
        SizedStride::Stride7 => 7,
        SizedStride::Stride8 => 8,
    }
}

/// Width in bits of the prefix bitmap of a stride width.
pub open spec fn stride_size_of(stride_type: SizedStride) -> nat {
    match stride_type {
        SizedStride::Stride3 => 16,
        SizedStride::Stride4 => 32,
        SizedStride::Stride5 => 64,
        SizedStride::Stride6 => 128,
        SizedStride::Stride7 => 256,
        SizedStride::Stride8 => 512,
    }
}

/// The sum of the first `n` counters.
pub open spec fn total_upto(counters: Seq<CreatedNodes>, n: nat) -> nat
    decreases n,
{
    if n == 0 {
        0
    } else {
        total_upto(counters, (n - 1) as nat) + counters[n - 1].count as nat
    }
}

/// The sum of all counters.
pub open spec fn total(counters: Seq<CreatedNodes>) -> nat {
    total_upto(counters, counters.len())
}

/// Every level has its counter, and every counter is zero.
pub open spec fn fresh_counters(counters: Seq<CreatedNodes>, levels: nat) -> bool {
    &&& counters.len() == levels
    &&& forall|i: int| 0 <= i < levels ==> (#[trigger] counters[i]).depth_level == i && counters[i].count == 0
}

impl StrideStats {
    /// The counters keep to the stride width they were made for, and have one
    /// counter per level.
    pub open spec fn wf(self, levels: nat) -> bool {
        &&& self.stride_size == stride_size_of(self.stride_type)
        &&& self.stride_len == stride_len_of(self.stride_type)
        &&& self.node_size * 8 == self.stride_size
        &&& self.created_nodes@.len() == levels
        &&& self.prefixes_num@.len() == levels
    }

    /// Counters for `num_depth_levels` tree levels, all zero.
    pub fn new(stride_type: SizedStride, num_depth_levels: u8) -> (r: Self)
        ensures
            r.stride_type == stride_type,
            r.wf(num_depth_levels as nat),
            fresh_counters(r.created_nodes@, num_depth_levels as nat),
            fresh_counters(r.prefixes_num@, num_depth_levels as nat),
    {
        let (stride_size, stride_len, node_size): (usize, u8, usize) = match stride_type {
            SizedStride::Stride3 => (16, 3, 2),
            SizedStride::Stride4 => (32, 4, 4),
            SizedStride::Stride5 => (64, 5, 8),
            SizedStride::Stride6 => (128, 6, 16),
            SizedStride::Stride7 => (256, 7, 32),
            SizedStride::Stride8 => (512, 8, 64),
        };
        StrideStats {
            stride_type,
            stride_size,
            stride_len,
            node_size,
            created_nodes: Self::nodes_vec(num_depth_levels),
            prefixes_num: Self::nodes_vec(num_depth_levels),
        }
    }

    /// Memory taken by the prefix bitmaps of the nodes counted, in bits.
    pub fn mem_usage(&self) -> (r: usize)
        requires
            total(self.created_nodes@) <= usize::MAX,
            self.stride_size * total(self.created_nodes@) <= usize::MAX,
        ensures
            r == self.stride_size * total(self.created_nodes@),
    {
        let mut acc: usize = 0;
        let mut i: usize = 0;
        while i < self.created_nodes.len()
            invariant
                i <= self.created_nodes@.len(),
                acc == total_upto(self.created_nodes@, i as nat),
                total(self.created_nodes@) <= usize::MAX,
                total_upto(self.created_nodes@, i as nat) <= total(self.created_nodes@),
            decreases self.created_nodes@.len() - i,
        {
            proof {
                lemma_total_monotone(self.created_nodes@, (i + 1) as nat, self.created_nodes@.len());
            }
            acc += self.created_nodes[i].count;
            i += 1;
        }
        self.stride_size * acc
    }

    /// One zeroed counter per level.
    pub fn nodes_vec(num_depth_levels: u8) -> (r: Vec<CreatedNodes>)
        ensures
            fresh_counters(r@, num_depth_levels as nat),
    {
        let mut vec: Vec<CreatedNodes> = Vec::new();
        let mut n: u8 = 0;
        while n < num_depth_levels
            invariant
                n <= num_depth_levels,
                fresh_counters(vec@, n as nat),
            decreases num_depth_levels - n,
        {
            vec.push(CreatedNodes { depth_level: n, count: 0 });
            n += 1;
        }
        vec
    }

    /// Counts one more node at `depth_level`.
    pub fn inc(&mut self, depth_level: u8)
        requires
            depth_level < old(self).created_nodes@.len(),
            old(self).created_nodes@[depth_level as int].count < usize::MAX,
        ensures
            final(self).created_nodes@ == old(self).created_nodes@.update(
                depth_level as int,
                CreatedNodes {
                    depth_level: old(self).created_nodes@[depth_level as int].depth_level,
                    count: (old(self).created_nodes@[depth_level as int].count + 1) as usize,
                },
            ),
            final(self).prefixes_num == old(self).prefixes_num,
            final(self).stride_type == old(self).stride_type,
            final(self).stride_size == old(self).stride_size,
            final(self).stride_len == old(self).stride_len,
            final(self).node_size == old(self).node_size,
    {
        let counter = self.created_nodes[depth_level as usize];
        self.created_nodes[depth_level as usize] = counter.add(1);
    }

    /// Counts one more prefix at `depth_level`.
    pub fn inc_prefix_count(&mut self, depth_level: u8)
        requires
            depth_level < old(self).prefixes_num@.len(),
            old(self).prefixes_num@[depth_level as int].count < usize::MAX,
        ensures
            final(self).prefixes_num@ == old(self).prefixes_num@.update(
                depth_level as int,
                CreatedNodes {
                    depth_level: old(self).prefixes_num@[depth_level as int].depth_level,
                    count: (old(self).prefixes_num@[depth_level as int].count + 1) as usize,
                },
            ),
            final(self).created_nodes == old(self).created_nodes,
            final(self).stride_type == old(self).stride_type,
            final(self).stride_size == old(self).stride_size,
            final(self).stride_len == old(self).stride_len,
            final(self).node_size == old(self).node_size,
    {
        let counter = self.prefixes_num[depth_level as usize];
        self.prefixes_num[depth_level as usize] = counter.add(1);
    }
}

/// Sums of longer runs of counters are no smaller.
pub proof fn lemma_total_monotone(counters: Seq<CreatedNodes>, a: nat, b: nat)
    requires
        a <= b,
    ensures
        total_upto(counters, a) <= total_upto(counters, b),
    decreases b - a,
{
    if a < b {
        lemma_total_monotone(counters, a, (b - 1) as nat);
    }
}

} // verus!
