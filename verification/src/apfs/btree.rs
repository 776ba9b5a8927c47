//! APFS B-tree nodes, lookup and scan.

pub mod edits;
pub mod flags;
pub mod node;
pub mod records;
pub mod search;

pub use crate::apfs::btree::node::{
    BTreeInfo, BTreeNode, Nloc, TocEntry, BTNODE_FIXED_PREFIX, BTREE_INFO_SIZE,
};
pub use crate::apfs::btree::search::{
    btree_lookup, btree_lookup_with_leaf, btree_scan, btree_scan_with_leaves,
};
