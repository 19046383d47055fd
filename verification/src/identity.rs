//! When two prefixes are the same prefix, and which of two comes first.
//!
//! Both go by the canonical form of a prefix: its leading bits, as many as
//! its length says, and then its length. Host bits and metadata play no part.

use vstd::prelude::*;
use vstd::std_specs::cmp::{PartialEqSpecImpl, PartialOrdSpecImpl};
use core::cmp::Ordering;
use crate::common::{AddressFamily, Prefix};
use crate::lpm::prefix_bits;

verus! {

impl<AF: AddressFamily, T> Prefix<AF, T> {
    /// The length of the prefix, cut down to the width of the address family.
    pub open spec fn canonical_len(self) -> nat {
        if self.len <= AF::spec_bits() {
            self.len as nat
        } else {
            AF::spec_bits()
        }
    }

    /// The leading bits of the network, as many as the prefix is long.
    pub open spec fn canonical_bits(self) -> nat {
        prefix_bits(self.net.value(), AF::spec_bits(), self.canonical_len())
    }

    /// The leading bits of the network, right-aligned.
    pub fn canonical_net(&self) -> (r: AF)
        ensures
            r.value() == self.canonical_bits(),
    {
        let bits = AF::bits();
        if self.len <= bits {
            AF::truncate(self.net, self.len)
        } else {
            AF::truncate(self.net, bits)
        }
    }
}

impl<AF: AddressFamily, T> PartialEq for Prefix<AF, T> {
    fn eq(&self, other: &Self) -> (r: bool) {
        let a = self.canonical_net();
        let b = other.canonical_net();
        self.len == other.len && !AF::less_than(a, b) && !AF::less_than(b, a)
    }
}

impl<AF: AddressFamily, T> PartialEqSpecImpl for Prefix<AF, T> {
    open spec fn obeys_eq_spec() -> bool {
        true
    }

    open spec fn eq_spec(&self, other: &Self) -> bool {
        self.len == other.len && self.canonical_bits() == other.canonical_bits()
    }
}

impl<AF: AddressFamily, T> PartialOrd for Prefix<AF, T> {
    fn partial_cmp(&self, other: &Self) -> (r: Option<Ordering>) {
        let a = self.canonical_net();
        let b = other.canonical_net();
        if AF::less_than(a, b) {
            Some(Ordering::Less)
        } else if AF::less_than(b, a) {
            Some(Ordering::Greater)
        } else if self.len < other.len {
            Some(Ordering::Less)
        } else if self.len > other.len {
            Some(Ordering::Greater)
        } else {
            Some(Ordering::Equal)
        }
    }
}

impl<AF: AddressFamily, T> PartialOrdSpecImpl for Prefix<AF, T> {
    open spec fn obeys_partial_cmp_spec() -> bool {
        true
    }

    open spec fn partial_cmp_spec(&self, other: &Self) -> Option<Ordering> {
        if self.canonical_bits() < other.canonical_bits() {
            Some(Ordering::Less)
        } else if self.canonical_bits() > other.canonical_bits() {
            Some(Ordering::Greater)
        } else if self.len < other.len {
            Some(Ordering::Less)
        } else if self.len > other.len {
            Some(Ordering::Greater)
        } else {
            Some(Ordering::Equal)
        }
    }
}

} // verus!
