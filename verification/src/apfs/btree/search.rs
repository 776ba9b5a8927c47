//! Lookup and scan over a whole B-tree.

use crate::apfs::btree::node::{node_outcome, BTreeNode, NodeView};
use crate::apfs::bytes::copy_range;
use crate::apfs::device::ReadAt;
use crate::apfs::error::{bad_btree, outcome, plain, ApfsError, Fault};
use crate::apfs::object::{agrees, block_outcome, read_block};
use crate::apfs::omap::{resolver, ThroughOmap};
use std::cmp::Ordering;
use vstd::prelude::*;

verus! {

/// How many levels below the root a search follows before it gives up. Node
/// levels are 16-bit numbers, so no sound tree is deeper.
pub const TREE_DEPTH_LIMIT: u32 = 0x1_0000;

/// How a child OID becomes a physical address.
pub trait ResolveOid {
    /// The address that `oid` stands for on a device with these contents.
    spec fn target(&self, disk: Seq<u8>, oid: u64) -> Result<u64, Fault>;

    fn resolve<D: ReadAt>(&self, dev: &D, oid: u64) -> (r: Result<u64, ApfsError>)
        ensures
            agrees(plain(r), self.target(dev.bytes(), oid), dev.reliable()),
    ;
}

/// In a physical tree the OID is the address.
pub struct Physical;

impl ResolveOid for Physical {
    open spec fn target(&self, disk: Seq<u8>, oid: u64) -> Result<u64, Fault> {
        Ok(oid)
    }

    fn resolve<D: ReadAt>(&self, dev: &D, oid: u64) -> (r: Result<u64, ApfsError>) {
        Ok(oid)
    }
}

/// The resolution of OIDs on a device with these contents.
pub open spec fn through<R: ResolveOid>(how: R, disk: Seq<u8>) -> spec_fn(u64) -> Result<
    u64,
    Fault,
> {
    |oid: u64| how.target(disk, oid)
}

/// The node in the block at `paddr`.
pub open spec fn node_at(disk: Seq<u8>, paddr: u64, block_size: u32) -> Result<NodeView, Fault> {
    match block_outcome(disk, paddr, block_size) {
        Err(e) => Err(e),
        Ok(b) => node_outcome(b),
    }
}

/// Key and value size of a tree: a root with a footer overrides what the
/// caller says.
pub open spec fn tree_sizes(root: NodeView, fixed_key_size: u32, fixed_val_size: u32) -> (u32, u32) {
    match root.info {
        Some(info) => (
            if info.key_size != 0 { info.key_size } else { fixed_key_size },
            if info.val_size != 0 { info.val_size } else { fixed_val_size },
        ),
        None => (fixed_key_size, fixed_val_size),
    }
}

/// The child to follow: the last one, from `i` on and before the first whose
/// key lies above what is searched, else `chosen`.
pub open spec fn child_choice(
    n: NodeView,
    fks: u32,
    rank: spec_fn(Seq<u8>) -> int,
    i: int,
    chosen: Option<int>,
) -> Result<Option<int>, Fault>
    decreases n.toc.len() - i,
{
    if i >= n.toc.len() {
        Ok(chosen)
    } else {
        match n.key(i, fks) {
            Err(e) => Err(e),
            Ok(k) => if rank(k) > 0 {
                Ok(chosen)
            } else {
                child_choice(n, fks, rank, i + 1, Some(i))
            },
        }
    }
}

/// The first value, from entry `i` on, whose key is the one searched. The
/// search ends at the first key above it.
pub open spec fn leaf_find(
    n: NodeView,
    fks: u32,
    fvs: u32,
    rank: spec_fn(Seq<u8>) -> int,
    i: int,
) -> Result<Option<Seq<u8>>, Fault>
    decreases n.toc.len() - i,
{
    if i >= n.toc.len() {
        Ok(None)
    } else {
        match n.key(i, fks) {
            Err(e) => Err(e),
            Ok(k) => if rank(k) == 0 {
                match n.value(i, fvs) {
                    Err(e) => Err(e),
                    Ok(v) => Ok(Some(v)),
                }
            } else if rank(k) > 0 {
                Ok(None)
            } else {
                leaf_find(n, fks, fvs, rank, i + 1)
            },
        }
    }
}

/// The leaf in which a search that starts at `n` ends, with its address.
pub open spec fn leaf_for(
    disk: Seq<u8>,
    block_size: u32,
    fks: u32,
    rank: spec_fn(Seq<u8>) -> int,
    resolve: spec_fn(u64) -> Result<u64, Fault>,
    n: NodeView,
    paddr: u64,
    levels: u32,
) -> Result<Option<(NodeView, u64)>, Fault>
    decreases levels,
{
    if n.is_leaf() {
        Ok(Some((n, paddr)))
    } else if levels == 0 {
        Err(Fault::BadBTree("tree is too deep"@))
    } else {
        match child_choice(n, fks, rank, 0, None) {
            Err(e) => Err(e),
            Ok(None) => Ok(None),
            Ok(Some(i)) => match n.child_oid(i) {
                Err(e) => Err(e),
                Ok(oid) => match resolve(oid) {
                    Err(e) => Err(e),
                    Ok(child_paddr) => match node_at(disk, child_paddr, block_size) {
                        Err(e) => Err(e),
                        Ok(child) => leaf_for(
                            disk,
                            block_size,
                            fks,
                            rank,
                            resolve,
                            child,
                            child_paddr,
                            (levels - 1) as u32,
                        ),
                    },
                },
            },
        }
    }
}

/// The leaf in which a search from the root ends, with its address and the
/// sizes that the tree uses.
pub open spec fn tree_leaf(
    disk: Seq<u8>,
    root_paddr: u64,
    block_size: u32,
    fixed_key_size: u32,
    fixed_val_size: u32,
    rank: spec_fn(Seq<u8>) -> int,
    resolve: spec_fn(u64) -> Result<u64, Fault>,
) -> Result<Option<(NodeView, u64, u32, u32)>, Fault> {
    match node_at(disk, root_paddr, block_size) {
        Err(e) => Err(e),
        Ok(root) => {
            let (fks, fvs) = tree_sizes(root, fixed_key_size, fixed_val_size);
            match leaf_for(
                disk,
                block_size,
                fks,
                rank,
                resolve,
                root,
                root_paddr,
                TREE_DEPTH_LIMIT,
            ) {
                Err(e) => Err(e),
                Ok(None) => Ok(None),
                Ok(Some((leaf, paddr))) => Ok(Some((leaf, paddr, fks, fvs))),
            }
        },
    }
}

/// The value searched and the address of its leaf.
pub open spec fn tree_lookup(
    disk: Seq<u8>,
    root_paddr: u64,
    block_size: u32,
    fixed_key_size: u32,
    fixed_val_size: u32,
    rank: spec_fn(Seq<u8>) -> int,
    resolve: spec_fn(u64) -> Result<u64, Fault>,
) -> Result<Option<(Seq<u8>, u64)>, Fault> {
    match tree_leaf(
        disk,
        root_paddr,
        block_size,
        fixed_key_size,
        fixed_val_size,
        rank,
        resolve,
    ) {
        Err(e) => Err(e),
        Ok(None) => Ok(None),
        Ok(Some((leaf, paddr, fks, fvs))) => match leaf_find(leaf, fks, fvs, rank, 0) {
            Err(e) => Err(e),
            Ok(None) => Ok(None),
            Ok(Some(v)) => Ok(Some((v, paddr))),
        },
    }
}

/// The value part of [`tree_lookup`].
pub open spec fn tree_value(r: Result<Option<(Seq<u8>, u64)>, Fault>) -> Result<
    Option<Seq<u8>>,
    Fault,
> {
    match r {
        Err(e) => Err(e),
        Ok(None) => Ok(None),
        Ok(Some((v, _))) => Ok(Some(v)),
    }
}

/// A position as a mathematical integer.
pub open spec fn pos(i: usize) -> int {
    i as int
}

/// An optional position as a mathematical integer.
pub open spec fn opt_pos(i: Option<usize>) -> Option<int> {
    match i {
        Some(i) => Some(i as int),
        None => None,
    }
}

/// Whether `f` can be called on every key and ranks keys as `rank` does:
/// below zero is `Less`, zero is `Equal`, above zero is `Greater`.
pub open spec fn models<F: Fn(&[u8]) -> Ordering>(f: F, rank: spec_fn(Seq<u8>) -> int) -> bool {
    forall|k: &[u8], o: Ordering| #[trigger]
        call_ensures(f, (k,), o) ==> match o {
            Ordering::Less => rank(k@) < 0,
            Ordering::Equal => rank(k@) == 0,
            Ordering::Greater => rank(k@) > 0,
        }
}

/// Whether `f` selects keys as `pick` does.
pub open spec fn selects<F: Fn(&[u8]) -> Option<bool>>(
    f: F,
    pick: spec_fn(Seq<u8>) -> Option<bool>,
) -> bool {
    forall|k: &[u8], o: Option<bool>| #[trigger] call_ensures(f, (k,), o) ==> o == pick(k@)
}

/// A leaf and its address, taken by view.
pub open spec fn leaf_view(r: Result<Option<(BTreeNode, u64)>, ApfsError>) -> Result<
    Option<(NodeView, u64)>,
    Fault,
> {
    match r {
        Err(e) => Err(e@),
        Ok(None) => Ok(None),
        Ok(Some((n, p))) => Ok(Some((n@, p))),
    }
}

/// A leaf with its address and sizes, taken by view.
pub open spec fn sized_leaf_view(r: Result<Option<(BTreeNode, u64, u32, u32)>, ApfsError>) -> Result<
    Option<(NodeView, u64, u32, u32)>,
    Fault,
> {
    match r {
        Err(e) => Err(e@),
        Ok(None) => Ok(None),
        Ok(Some((n, p, k, v))) => Ok(Some((n@, p, k, v))),
    }
}

/// A value and an address, taken by view.
pub open spec fn hit_view(r: Result<Option<(Vec<u8>, u64)>, ApfsError>) -> Result<
    Option<(Seq<u8>, u64)>,
    Fault,
> {
    match r {
        Err(e) => Err(e@),
        Ok(None) => Ok(None),
        Ok(Some((v, p))) => Ok(Some((v@, p))),
    }
}

/// A value, taken by view.
pub open spec fn found_view(r: Result<Option<Vec<u8>>, ApfsError>) -> Result<
    Option<Seq<u8>>,
    Fault,
> {
    match r {
        Err(e) => Err(e@),
        Ok(None) => Ok(None),
        Ok(Some(v)) => Ok(Some(v@)),
    }
}

/// Read the block at `paddr` and parse it as a node.
pub fn read_node<D: ReadAt>(dev: &D, paddr: u64, block_size: u32) -> (r: Result<
    BTreeNode,
    ApfsError,
>)
    ensures
        agrees(outcome(r), node_at(dev.bytes(), paddr, block_size), dev.reliable()),
{
    let block = read_block(dev, paddr, block_size)?;
    BTreeNode::parse(block.as_slice())
}

/// Key and value size of the tree with this root.
pub fn sizes_of(root: &BTreeNode, fixed_key_size: u32, fixed_val_size: u32) -> (r: (u32, u32))
    ensures
        r == tree_sizes(root@, fixed_key_size, fixed_val_size),
{
    match &root.info {
        Some(info) => (
            if info.key_size != 0 {
                info.key_size
            } else {
                fixed_key_size
            },
            if info.val_size != 0 {
                info.val_size
            } else {
                fixed_val_size
            },
        ),
        None => (fixed_key_size, fixed_val_size),
    }
}

fn choose_child<F>(n: &BTreeNode, fks: u32, f: &F) -> (r: Result<Option<usize>, ApfsError>)
    where F: Fn(&[u8]) -> Ordering
    requires
        forall|k: &[u8]| call_requires(*f, (k,)),
    ensures
        r matches Ok(Some(i)) ==> i < n@.toc.len(),
        forall|rank: spec_fn(Seq<u8>) -> int| #[trigger]
            models(*f, rank) ==> (match r {
                Ok(c) => Ok(opt_pos(c)),
                Err(e) => Err(e@),
            }) == child_choice(n@, fks, rank, 0, None),
{
    let mut chosen: Option<usize> = None;
    let mut i: usize = 0;
    let count: usize = n.nkeys();
    while i < count
        invariant
            i <= count,
            count == n@.toc.len(),
            chosen matches Some(c) ==> c < i,
            forall|k: &[u8]| call_requires(*f, (k,)),
            forall|rank: spec_fn(Seq<u8>) -> int| #[trigger]
                models(*f, rank) ==> child_choice(n@, fks, rank, 0, None) == child_choice(
                    n@,
                    fks,
                    rank,
                    pos(i),
                    opt_pos(chosen),
                ),
        decreases count - i,
    {
        let key = n.key_at(i, fks)?;
        match f(key) {
            Ordering::Greater => {
                return Ok(chosen);
            },
            _ => {
                chosen = Some(i);
            },
        }
        i += 1;
    }
    Ok(chosen)
}

fn find_in_leaf<F>(n: &BTreeNode, fks: u32, fvs: u32, f: &F) -> (r: Result<
    Option<Vec<u8>>,
    ApfsError,
>)
    where F: Fn(&[u8]) -> Ordering
    requires
        forall|k: &[u8]| call_requires(*f, (k,)),
    ensures
        forall|rank: spec_fn(Seq<u8>) -> int| #[trigger]
            models(*f, rank) ==> found_view(r) == leaf_find(n@, fks, fvs, rank, 0),
{
    let mut i: usize = 0;
    let count: usize = n.nkeys();
    while i < count
        invariant
            i <= count,
            count == n@.toc.len(),
            forall|k: &[u8]| call_requires(*f, (k,)),
            forall|rank: spec_fn(Seq<u8>) -> int| #[trigger]
                models(*f, rank) ==> leaf_find(n@, fks, fvs, rank, 0) == leaf_find(
                    n@,
                    fks,
                    fvs,
                    rank,
                    pos(i),
                ),
        decreases count - i,
    {
        let key = n.key_at(i, fks)?;
        match f(key) {
            Ordering::Equal => {
                let v = n.value_at(i, fvs)?;
                let copy = copy_range(v, 0, v.len());
                assert(copy@ =~= v@);
                return Ok(Some(copy));
            },
            Ordering::Greater => {
                return Ok(None);
            },
            Ordering::Less => {},
        }
        i += 1;
    }
    Ok(None)
}

fn descend_tree<D: ReadAt, R: ResolveOid, F>(
    dev: &D,
    start: BTreeNode,
    start_paddr: u64,
    block_size: u32,
    fks: u32,
    f: &F,
    how: &R,
) -> (r: Result<Option<(BTreeNode, u64)>, ApfsError>)
    where F: Fn(&[u8]) -> Ordering
    requires
        forall|k: &[u8]| call_requires(*f, (k,)),
    ensures
        forall|rank: spec_fn(Seq<u8>) -> int| #[trigger]
            models(*f, rank) ==> agrees(
                leaf_view(r),
                leaf_for(
                    dev.bytes(),
                    block_size,
                    fks,
                    rank,
                    through(*how, dev.bytes()),
                    start@,
                    start_paddr,
                    TREE_DEPTH_LIMIT,
                ),
                dev.reliable(),
            ),
{
    let ghost root = start@;
    let mut node = start;
    let mut paddr: u64 = start_paddr;
    let mut levels: u32 = TREE_DEPTH_LIMIT;
    while !node.is_leaf()
        invariant
            root == start@,
            forall|k: &[u8]| call_requires(*f, (k,)),
            forall|rank: spec_fn(Seq<u8>) -> int| #[trigger]
                models(*f, rank) ==> leaf_for(
                    dev.bytes(),
                    block_size,
                    fks,
                    rank,
                    through(*how, dev.bytes()),
                    root,
                    start_paddr,
                    TREE_DEPTH_LIMIT,
                ) == leaf_for(
                    dev.bytes(),
                    block_size,
                    fks,
                    rank,
                    through(*how, dev.bytes()),
                    node@,
                    paddr,
                    levels,
                ),
        decreases levels,
    {
        if levels == 0 {
            return Err(bad_btree("tree is too deep"));
        }
        let idx: usize = match choose_child(&node, fks, f)? {
            Some(i) => i,
            None => {
                return Ok(None);
            },
        };
        let oid: u64 = node.child_oid_at(idx)?;
        let child_paddr: u64 = how.resolve(dev, oid)?;
        let child = read_node(dev, child_paddr, block_size)?;
        node = child;
        paddr = child_paddr;
        levels = levels - 1;
    }
    Ok(Some((node, paddr)))
}

/// The leaf in which a search from the root ends.
pub fn find_leaf<D: ReadAt, R: ResolveOid, F>(
    dev: &D,
    root_paddr: u64,
    block_size: u32,
    fixed_key_size: u32,
    fixed_val_size: u32,
    f: &F,
    how: &R,
) -> (r: Result<Option<(BTreeNode, u64, u32, u32)>, ApfsError>)
    where F: Fn(&[u8]) -> Ordering
    requires
        forall|k: &[u8]| call_requires(*f, (k,)),
    ensures
        forall|rank: spec_fn(Seq<u8>) -> int| #[trigger]
            models(*f, rank) ==> agrees(
                sized_leaf_view(r),
                tree_leaf(
                    dev.bytes(),
                    root_paddr,
                    block_size,
                    fixed_key_size,
                    fixed_val_size,
                    rank,
                    through(*how, dev.bytes()),
                ),
                dev.reliable(),
            ),
{
    let root = read_node(dev, root_paddr, block_size)?;
    let (fks, fvs) = sizes_of(&root, fixed_key_size, fixed_val_size);
    match descend_tree(dev, root, root_paddr, block_size, fks, f, how)? {
        Some((leaf, paddr)) => Ok(Some((leaf, paddr, fks, fvs))),
        None => Ok(None),
    }
}

fn search_tree<D: ReadAt, R: ResolveOid, F>(
    dev: &D,
    root_paddr: u64,
    block_size: u32,
    fixed_key_size: u32,
    fixed_val_size: u32,
    f: &F,
    how: &R,
) -> (r: Result<Option<(Vec<u8>, u64)>, ApfsError>)
    where F: Fn(&[u8]) -> Ordering
    requires
        forall|k: &[u8]| call_requires(*f, (k,)),
    ensures
        forall|rank: spec_fn(Seq<u8>) -> int| #[trigger]
            models(*f, rank) ==> agrees(
                hit_view(r),
                tree_lookup(
                    dev.bytes(),
                    root_paddr,
                    block_size,
                    fixed_key_size,
                    fixed_val_size,
                    rank,
                    through(*how, dev.bytes()),
                ),
                dev.reliable(),
            ),
{
    match find_leaf(dev, root_paddr, block_size, fixed_key_size, fixed_val_size, f, how)? {
        None => Ok(None),
        Some((leaf, paddr, fks, fvs)) => match find_in_leaf(&leaf, fks, fvs, f)? {
            None => Ok(None),
            Some(v) => Ok(Some((v, paddr))),
        },
    }
}

/// Look up the value matching `compare_fn` in a B-tree rooted at
/// `root_paddr`. With an `omap_root` the child OIDs are translated through
/// that object map, else they are physical addresses.
pub fn btree_lookup<D: ReadAt, F>(
    dev: &D,
    root_paddr: u64,
    block_size: u32,
    fixed_key_size: u32,
    fixed_val_size: u32,
    compare_fn: &F,
    omap_root: Option<u64>,
) -> (r: Result<Option<Vec<u8>>, ApfsError>)
    where F: Fn(&[u8]) -> Ordering
    requires
        forall|k: &[u8]| call_requires(*compare_fn, (k,)),
    ensures
        forall|rank: spec_fn(Seq<u8>) -> int| #[trigger]
            models(*compare_fn, rank) ==> agrees(
                found_view(r),
                tree_value(
                    tree_lookup(
                        dev.bytes(),
                        root_paddr,
                        block_size,
                        fixed_key_size,
                        fixed_val_size,
                        rank,
                        resolver(dev.bytes(), block_size, omap_root),
                    ),
                ),
                dev.reliable(),
            ),
{
    match btree_lookup_with_leaf(
        dev,
        root_paddr,
        block_size,
        fixed_key_size,
        fixed_val_size,
        compare_fn,
        omap_root,
    )? {
        Some((v, _)) => Ok(Some(v)),
        None => Ok(None),
    }
}

/// Same as [`btree_lookup`] but also returns the address of the leaf that
/// contained the matched entry (for read-modify-write paths).
pub fn btree_lookup_with_leaf<D: ReadAt, F>(
    dev: &D,
    root_paddr: u64,
    block_size: u32,
    fixed_key_size: u32,
    fixed_val_size: u32,
    compare_fn: &F,
    omap_root: Option<u64>,
) -> (r: Result<Option<(Vec<u8>, u64)>, ApfsError>)
    where F: Fn(&[u8]) -> Ordering
    requires
        forall|k: &[u8]| call_requires(*compare_fn, (k,)),
    ensures
        forall|rank: spec_fn(Seq<u8>) -> int| #[trigger]
            models(*compare_fn, rank) ==> agrees(
                hit_view(r),
                tree_lookup(
                    dev.bytes(),
                    root_paddr,
                    block_size,
                    fixed_key_size,
                    fixed_val_size,
                    rank,
                    resolver(dev.bytes(), block_size, omap_root),
                ),
                dev.reliable(),
            ),
{
    match omap_root {
        Some(root) => search_tree(
            dev,
            root_paddr,
            block_size,
            fixed_key_size,
            fixed_val_size,
            compare_fn,
            &ThroughOmap { root, block_size },
        ),
        None => search_tree(
            dev,
            root_paddr,
            block_size,
            fixed_key_size,
            fixed_val_size,
            compare_fn,
            &Physical,
        ),
    }
}

/// One record that a scan found: key, value and the address of its leaf.
pub type Found = (Seq<u8>, Seq<u8>, u64);

/// Records in front of what a further scan gives.
pub open spec fn after(seen: Seq<Found>, rest: Result<(Seq<Found>, bool), Fault>) -> Result<
    (Seq<Found>, bool),
    Fault,
> {
    match rest {
        Err(e) => Err(e),
        Ok((more, stop)) => Ok((seen + more, stop)),
    }
}

/// The selected records of a leaf from entry `i` on, and whether the scan is
/// over.
pub open spec fn scan_leaf(
    n: NodeView,
    paddr: u64,
    fks: u32,
    fvs: u32,
    pick: spec_fn(Seq<u8>) -> Option<bool>,
    i: int,
) -> Result<(Seq<Found>, bool), Fault>
    decreases n.toc.len() - i,
{
    if i >= n.toc.len() {
        Ok((Seq::empty(), false))
    } else {
        match n.key(i, fks) {
            Err(e) => Err(e),
            Ok(k) => match pick(k) {
                None => Ok((Seq::empty(), true)),
                Some(true) => match n.value(i, fvs) {
                    Err(e) => Err(e),
                    Ok(v) => after(seq![(k, v, paddr)], scan_leaf(n, paddr, fks, fvs, pick, i + 1)),
                },
                Some(false) => scan_leaf(n, paddr, fks, fvs, pick, i + 1),
            },
        }
    }
}

/// The selected records below a node, and whether the scan is over.
pub open spec fn scan_node(
    disk: Seq<u8>,
    block_size: u32,
    fks: u32,
    fvs: u32,
    pick: spec_fn(Seq<u8>) -> Option<bool>,
    resolve: spec_fn(u64) -> Result<u64, Fault>,
    n: NodeView,
    paddr: u64,
    levels: u32,
) -> Result<(Seq<Found>, bool), Fault>
    decreases levels, n.toc.len() + 1,
{
    if n.is_leaf() {
        scan_leaf(n, paddr, fks, fvs, pick, 0)
    } else if levels == 0 {
        Err(Fault::BadBTree("tree is too deep"@))
    } else {
        scan_children(disk, block_size, fks, fvs, pick, resolve, n, levels, 0)
    }
}

/// The selected records below the children of a node from entry `i` on, and
/// whether the scan is over. A key that `pick` does not want to see ends it.
pub open spec fn scan_children(
    disk: Seq<u8>,
    block_size: u32,
    fks: u32,
    fvs: u32,
    pick: spec_fn(Seq<u8>) -> Option<bool>,
    resolve: spec_fn(u64) -> Result<u64, Fault>,
    n: NodeView,
    levels: u32,
    i: int,
) -> Result<(Seq<Found>, bool), Fault>
    decreases levels, n.toc.len() - i,
{
    if i >= n.toc.len() || i < 0 || levels == 0 {
        Ok((Seq::empty(), false))
    } else {
        match n.key(i, fks) {
            Err(e) => Err(e),
            Ok(k) => if pick(k) is None {
                Ok((Seq::empty(), true))
            } else {
                match n.child_oid(i) {
                    Err(e) => Err(e),
                    Ok(oid) => match resolve(oid) {
                        Err(e) => Err(e),
                        Ok(child_paddr) => match node_at(disk, child_paddr, block_size) {
                            Err(e) => Err(e),
                            Ok(child) => match scan_node(
                                disk,
                                block_size,
                                fks,
                                fvs,
                                pick,
                                resolve,
                                child,
                                child_paddr,
                                (levels - 1) as u32,
                            ) {
                                Err(e) => Err(e),
                                Ok((found, true)) => Ok((found, true)),
                                Ok((found, false)) => after(
                                    found,
                                    scan_children(
                                        disk,
                                        block_size,
                                        fks,
                                        fvs,
                                        pick,
                                        resolve,
                                        n,
                                        levels,
                                        i + 1,
                                    ),
                                ),
                            },
                        },
                    },
                }
            },
        }
    }
}

/// The selected records of a whole tree, in tree order.
pub open spec fn tree_scan(
    disk: Seq<u8>,
    root_paddr: u64,
    block_size: u32,
    fixed_key_size: u32,
    fixed_val_size: u32,
    pick: spec_fn(Seq<u8>) -> Option<bool>,
    resolve: spec_fn(u64) -> Result<u64, Fault>,
) -> Result<Seq<Found>, Fault> {
    match node_at(disk, root_paddr, block_size) {
        Err(e) => Err(e),
        Ok(root) => {
            let (fks, fvs) = tree_sizes(root, fixed_key_size, fixed_val_size);
            match scan_node(
                disk,
                block_size,
                fks,
                fvs,
                pick,
                resolve,
                root,
                root_paddr,
                TREE_DEPTH_LIMIT,
            ) {
                Err(e) => Err(e),
                Ok((found, _)) => Ok(found),
            }
        },
    }
}

/// Found records, taken by view.
pub open spec fn found_seq(s: Seq<(Vec<u8>, Vec<u8>, u64)>) -> Seq<Found> {
    s.map_values(|x: (Vec<u8>, Vec<u8>, u64)| (x.0@, x.1@, x.2))
}

/// Keys and values, taken by view.
pub open spec fn pairs_seq(s: Seq<(Vec<u8>, Vec<u8>)>) -> Seq<(Seq<u8>, Seq<u8>)> {
    s.map_values(|x: (Vec<u8>, Vec<u8>)| (x.0@, x.1@))
}

/// Found records without the addresses of their leaves.
pub open spec fn without_leaves(s: Seq<Found>) -> Seq<(Seq<u8>, Seq<u8>)> {
    s.map_values(|x: Found| (x.0, x.1))
}

fn push_leaf<F>(
    n: &BTreeNode,
    paddr: u64,
    fks: u32,
    fvs: u32,
    f: &F,
    out: &mut Vec<(Vec<u8>, Vec<u8>, u64)>,
) -> (r: Result<bool, ApfsError>)
    where F: Fn(&[u8]) -> Option<bool>
    requires
        forall|k: &[u8]| call_requires(*f, (k,)),
    ensures
        forall|pick: spec_fn(Seq<u8>) -> Option<bool>| #[trigger]
            selects(*f, pick) ==> match r {
                Ok(stop) => after(
                    found_seq(old(out)@),
                    scan_leaf(n@, paddr, fks, fvs, pick, 0),
                ) == Ok::<(Seq<Found>, bool), Fault>((found_seq(final(out)@), stop)),
                Err(e) => scan_leaf(n@, paddr, fks, fvs, pick, 0) == Err::<
                    (Seq<Found>, bool),
                    Fault,
                >(e@),
            },
{
    let mut i: usize = 0;
    let count: usize = n.nkeys();
    proof {
        assert forall|pick: spec_fn(Seq<u8>) -> Option<bool>| #[trigger] selects(*f, pick) implies
            after(found_seq(old(out)@), scan_leaf(n@, paddr, fks, fvs, pick, 0)) == after(
            found_seq(out@),
            scan_leaf(n@, paddr, fks, fvs, pick, 0),
        ) by {}
    }
    while i < count
        invariant
            i <= count,
            count == n@.toc.len(),
            forall|k: &[u8]| call_requires(*f, (k,)),
            forall|pick: spec_fn(Seq<u8>) -> Option<bool>| #[trigger]
                selects(*f, pick) ==> after(
                    found_seq(old(out)@),
                    scan_leaf(n@, paddr, fks, fvs, pick, 0),
                ) == after(found_seq(out@), scan_leaf(n@, paddr, fks, fvs, pick, i as int)),
        decreases count - i,
    {
        let key = n.key_at(i, fks)?;
        let ghost before = out@;
        match f(key) {
            None => {
                assert(found_seq(out@) + Seq::<Found>::empty() =~= found_seq(out@));
                return Ok(true);
            },
            Some(true) => {
                let v = n.value_at(i, fvs)?;
                let k_copy = copy_range(key, 0, key.len());
                let v_copy = copy_range(v, 0, v.len());
                assert(k_copy@ =~= key@);
                assert(v_copy@ =~= v@);
                out.push((k_copy, v_copy, paddr));
                proof {
                    assert(found_seq(out@) =~= found_seq(before) + seq![(key@, v@, paddr)]);
                    assert forall|pick: spec_fn(Seq<u8>) -> Option<bool>| #[trigger]
                        selects(*f, pick) implies after(
                        found_seq(before),
                        scan_leaf(n@, paddr, fks, fvs, pick, i as int),
                    ) == after(found_seq(out@), scan_leaf(n@, paddr, fks, fvs, pick, i + 1)) by {
                        let rest = scan_leaf(n@, paddr, fks, fvs, pick, i + 1);
                        if rest is Ok {
                            let more = rest->Ok_0.0;
                            assert(found_seq(before) + (seq![(key@, v@, paddr)] + more)
                                =~= found_seq(out@) + more);
                        }
                    }
                }
            },
            Some(false) => {},
        }
        i += 1;
    }
    assert(found_seq(out@) + Seq::<Found>::empty() =~= found_seq(out@));
    Ok(false)
}

fn scan_below<D: ReadAt, R: ResolveOid, F>(
    dev: &D,
    n: &BTreeNode,
    paddr: u64,
    block_size: u32,
    fks: u32,
    fvs: u32,
    f: &F,
    how: &R,
    levels: u32,
    out: &mut Vec<(Vec<u8>, Vec<u8>, u64)>,
) -> (r: Result<bool, ApfsError>)
    where F: Fn(&[u8]) -> Option<bool>
    requires
        forall|k: &[u8]| call_requires(*f, (k,)),
    ensures
        forall|pick: spec_fn(Seq<u8>) -> Option<bool>| #[trigger]
            selects(*f, pick) ==> scan_agrees(
                r,
                found_seq(old(out)@),
                found_seq(final(out)@),
                scan_node(
                    dev.bytes(),
                    block_size,
                    fks,
                    fvs,
                    pick,
                    through(*how, dev.bytes()),
                    n@,
                    paddr,
                    levels,
                ),
                dev.reliable(),
            ),
    decreases levels,
{
    if n.is_leaf() {
        return push_leaf(n, paddr, fks, fvs, f, out);
    }
    if levels == 0 {
        return Err(bad_btree("tree is too deep"));
    }
    let mut i: usize = 0;
    let count: usize = n.nkeys();
    while i < count
        invariant
            i <= count,
            count == n@.toc.len(),
            levels > 0,
            !n@.is_leaf(),
            forall|k: &[u8]| call_requires(*f, (k,)),
            forall|pick: spec_fn(Seq<u8>) -> Option<bool>| #[trigger]
                selects(*f, pick) ==> after(
                    found_seq(old(out)@),
                    scan_node(
                        dev.bytes(),
                        block_size,
                        fks,
                        fvs,
                        pick,
                        through(*how, dev.bytes()),
                        n@,
                        paddr,
                        levels,
                    ),
                ) == after(
                    found_seq(out@),
                    scan_children(
                        dev.bytes(),
                        block_size,
                        fks,
                        fvs,
                        pick,
                        through(*how, dev.bytes()),
                        n@,
                        levels,
                        i as int,
                    ),
                ),
        decreases count - i,
    {
        let key = n.key_at(i, fks)?;
        let wanted: Option<bool> = f(key);
        if wanted.is_none() {
            assert(found_seq(out@) + Seq::<Found>::empty() =~= found_seq(out@));
            return Ok(true);
        }
        let oid: u64 = n.child_oid_at(i)?;
        let child_paddr: u64 = how.resolve(dev, oid)?;
        let child = read_node(dev, child_paddr, block_size)?;
        let ghost before = found_seq(out@);
        let stop = scan_below(
            dev,
            &child,
            child_paddr,
            block_size,
            fks,
            fvs,
            f,
            how,
            (levels - 1) as u32,
            out,
        )?;
        if stop {
            return Ok(true);
        }
        proof {
            let t = through(*how, dev.bytes());
            assert forall|pick: spec_fn(Seq<u8>) -> Option<bool>| #[trigger] selects(*f, pick) implies
                after(
                before,
                scan_children(dev.bytes(), block_size, fks, fvs, pick, t, n@, levels, i as int),
            ) == after(
                found_seq(out@),
                scan_children(dev.bytes(), block_size, fks, fvs, pick, t, n@, levels, i + 1),
            ) by {
                let found = scan_node(
                    dev.bytes(),
                    block_size,
                    fks,
                    fvs,
                    pick,
                    t,
                    child@,
                    child_paddr,
                    (levels - 1) as u32,
                )->Ok_0.0;
                let rest = scan_children(
                    dev.bytes(),
                    block_size,
                    fks,
                    fvs,
                    pick,
                    t,
                    n@,
                    levels,
                    i + 1,
                );
                if rest is Ok {
                    assert(before + (found + rest->Ok_0.0) =~= (before + found) + rest->Ok_0.0);
                }
            }
        }
        i += 1;
    }
    assert(found_seq(out@) + Seq::<Found>::empty() =~= found_seq(out@));
    Ok(false)
}

/// Agreement of a scan that appends to a list with what the device's contents
/// call for.
pub open spec fn scan_agrees(
    r: Result<bool, ApfsError>,
    before: Seq<Found>,
    now: Seq<Found>,
    called_for: Result<(Seq<Found>, bool), Fault>,
    reliable: bool,
) -> bool {
    match r {
        Ok(stop) => after(before, called_for) == Ok::<(Seq<Found>, bool), Fault>((now, stop)),
        Err(e) => agrees(Err::<(Seq<Found>, bool), Fault>(e@), called_for, reliable),
    }
}

fn scan<D: ReadAt, R: ResolveOid, F>(
    dev: &D,
    root_paddr: u64,
    block_size: u32,
    fixed_key_size: u32,
    fixed_val_size: u32,
    f: &F,
    how: &R,
) -> (r: Result<Vec<(Vec<u8>, Vec<u8>, u64)>, ApfsError>)
    where F: Fn(&[u8]) -> Option<bool>
    requires
        forall|k: &[u8]| call_requires(*f, (k,)),
    ensures
        forall|pick: spec_fn(Seq<u8>) -> Option<bool>| #[trigger]
            selects(*f, pick) ==> agrees(
                found_list_view(r),
                tree_scan(
                    dev.bytes(),
                    root_paddr,
                    block_size,
                    fixed_key_size,
                    fixed_val_size,
                    pick,
                    through(*how, dev.bytes()),
                ),
                dev.reliable(),
            ),
{
    let mut out: Vec<(Vec<u8>, Vec<u8>, u64)> = Vec::new();
    assert(found_seq(out@) =~= Seq::empty());
    let root = read_node(dev, root_paddr, block_size)?;
    let (fks, fvs) = sizes_of(&root, fixed_key_size, fixed_val_size);
    scan_below(
        dev,
        &root,
        root_paddr,
        block_size,
        fks,
        fvs,
        f,
        how,
        TREE_DEPTH_LIMIT,
        &mut out,
    )?;
    proof {
        let t = through(*how, dev.bytes());
        assert forall|pick: spec_fn(Seq<u8>) -> Option<bool>| #[trigger] selects(*f, pick) implies
            tree_scan(
            dev.bytes(),
            root_paddr,
            block_size,
            fixed_key_size,
            fixed_val_size,
            pick,
            t,
        ) == Ok::<Seq<Found>, Fault>(found_seq(out@)) by {
            let all = scan_node(
                dev.bytes(),
                block_size,
                fks,
                fvs,
                pick,
                t,
                root@,
                root_paddr,
                TREE_DEPTH_LIMIT,
            );
            assert(Seq::<Found>::empty() + all->Ok_0.0 =~= all->Ok_0.0);
        }
    }
    Ok(out)
}

/// A list of found records, taken by view.
pub open spec fn found_list_view(r: Result<Vec<(Vec<u8>, Vec<u8>, u64)>, ApfsError>) -> Result<
    Seq<Found>,
    Fault,
> {
    match r {
        Err(e) => Err(e@),
        Ok(v) => Ok(found_seq(v@)),
    }
}

/// A list of keys and values, taken by view.
pub open spec fn pair_list_view(r: Result<Vec<(Vec<u8>, Vec<u8>)>, ApfsError>) -> Result<
    Seq<(Seq<u8>, Seq<u8>)>,
    Fault,
> {
    match r {
        Err(e) => Err(e@),
        Ok(v) => Ok(pairs_seq(v@)),
    }
}

/// The keys and values of [`tree_scan`].
pub open spec fn tree_pairs(r: Result<Seq<Found>, Fault>) -> Result<Seq<(Seq<u8>, Seq<u8>)>, Fault> {
    match r {
        Err(e) => Err(e),
        Ok(s) => Ok(without_leaves(s)),
    }
}

/// Scan leaves and collect every `(key, val)` where `range_fn` returns
/// `Some(true)`. `None` from the closure stops the scan.
pub fn btree_scan<D: ReadAt, F>(
    dev: &D,
    root_paddr: u64,
    block_size: u32,
    fixed_key_size: u32,
    fixed_val_size: u32,
    range_fn: &F,
    omap_root: Option<u64>,
) -> (r: Result<Vec<(Vec<u8>, Vec<u8>)>, ApfsError>)
    where F: Fn(&[u8]) -> Option<bool>
    requires
        forall|k: &[u8]| call_requires(*range_fn, (k,)),
    ensures
        forall|pick: spec_fn(Seq<u8>) -> Option<bool>| #[trigger]
            selects(*range_fn, pick) ==> agrees(
                pair_list_view(r),
                tree_pairs(
                    tree_scan(
                        dev.bytes(),
                        root_paddr,
                        block_size,
                        fixed_key_size,
                        fixed_val_size,
                        pick,
                        resolver(dev.bytes(), block_size, omap_root),
                    ),
                ),
                dev.reliable(),
            ),
{
    let found = btree_scan_with_leaves(
        dev,
        root_paddr,
        block_size,
        fixed_key_size,
        fixed_val_size,
        range_fn,
        omap_root,
    )?;
    let mut out: Vec<(Vec<u8>, Vec<u8>)> = Vec::new();
    let mut i: usize = 0;
    while i < found.len()
        invariant
            i <= found.len(),
            pairs_seq(out@) == without_leaves(found_seq(found@)).subrange(0, i as int),
        decreases found.len() - i,
    {
        let (k, v, _) = &found[i];
        let kc = copy_range(k.as_slice(), 0, k.len());
        let vc = copy_range(v.as_slice(), 0, v.len());
        assert(kc@ =~= k@);
        assert(vc@ =~= v@);
        let ghost before = out@;
        out.push((kc, vc));
        proof {
            assert(pairs_seq(out@) =~= pairs_seq(before).push((k@, v@)));
            assert(found_seq(found@)[i as int] == (k@, v@, found@[i as int].2));
            assert(pairs_seq(out@) =~= without_leaves(found_seq(found@)).subrange(0, i + 1));
        }
        i += 1;
    }
    assert(pairs_seq(out@) =~= without_leaves(found_seq(found@)));
    Ok(out)
}

/// Like [`btree_scan`] but each tuple also holds the address of the leaf that
/// produced the match.
pub fn btree_scan_with_leaves<D: ReadAt, F>(
    dev: &D,
    root_paddr: u64,
    block_size: u32,
    fixed_key_size: u32,
    fixed_val_size: u32,
    range_fn: &F,
    omap_root: Option<u64>,
) -> (r: Result<Vec<(Vec<u8>, Vec<u8>, u64)>, ApfsError>)
    where F: Fn(&[u8]) -> Option<bool>
    requires
        forall|k: &[u8]| call_requires(*range_fn, (k,)),
    ensures
        forall|pick: spec_fn(Seq<u8>) -> Option<bool>| #[trigger]
            selects(*range_fn, pick) ==> agrees(
                found_list_view(r),
                tree_scan(
                    dev.bytes(),
                    root_paddr,
                    block_size,
                    fixed_key_size,
                    fixed_val_size,
                    pick,
                    resolver(dev.bytes(), block_size, omap_root),
                ),
                dev.reliable(),
            ),
{
    match omap_root {
        Some(root) => scan(
            dev,
            root_paddr,
            block_size,
            fixed_key_size,
            fixed_val_size,
            range_fn,
            &ThroughOmap { root, block_size },
        ),
        None => scan(
            dev,
            root_paddr,
            block_size,
            fixed_key_size,
            fixed_val_size,
            range_fn,
            &Physical,
        ),
    }
}

} // verus!
