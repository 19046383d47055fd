//! What the stores report instead of a result.

use vstd::prelude::*;

verus! {

#[derive(Debug, Clone, Copy, PartialEq, Eq, Structural)]
pub enum StoreError {
    /// The prefix length exceeds the width of the address family.
    InvalidPrefix,
    /// The stride schedule holds a width outside 3..=8 or does not add up to
    /// the width of the address family.
    InvalidStrideSchedule,
    /// The prefix is already stored.
    Duplicate,
    /// The bitmap slot asked for holds no entry.
    EmptySlot,
}

} // verus!
