//! The multibit tree-bitmap.

pub mod node;
pub mod stats;
pub mod stride;
pub mod tree;
pub mod wide;
