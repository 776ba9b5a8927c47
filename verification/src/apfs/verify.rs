//! Structural validator for an APFS image.

use crate::apfs::fletcher;
use crate::apfs::btree::BTreeNode;
use crate::apfs::btree::node::{node_outcome, NodeView};
use crate::apfs::btree::search::TREE_DEPTH_LIMIT;
use crate::apfs::device::ReadAt;
use crate::apfs::error::{bad_btree, plain, ApfsError, Fault};
use crate::apfs::fletcher::intact;
use crate::apfs::object::{
    agrees, block_outcome, header_outcome, read_block, read_block_verified, verified_block_outcome,
    ObjectHeader, OBJECT_TYPE_NX_SUPERBLOCK,
};
use crate::apfs::omap::{omap_lookup, omap_outcome, omap_tree_root, read_omap_tree_root, resolver};
use crate::apfs::superblock::{
    apfs_outcome, first_nx, nx_outcome, read_nxsb, ApfsSuperblock, ApfsView, NxSuperblock, NxView,
};
use crate::apfs::text::{msg2, text2};
use std::collections::HashSet;
use vstd::prelude::*;

verus! {

/// What a check of an image came by.
#[derive(Debug, Clone, Copy)]
pub struct VerifyReport {
    pub blocks_checked: u64,
    pub btree_nodes_visited: u64,
    pub volumes: u32,
    pub max_xid: u64,
    pub checkpoint_nxsb_count: u32,
}

/// A report of nothing.
pub open spec fn empty_report() -> VerifyReport {
    VerifyReport {
        blocks_checked: 0,
        btree_nodes_visited: 0,
        volumes: 0,
        max_xid: 0,
        checkpoint_nxsb_count: 0,
    }
}

impl Default for VerifyReport {
    fn default() -> (r: Self)
        ensures
            r == empty_report(),
    {
        VerifyReport {
            blocks_checked: 0,
            btree_nodes_visited: 0,
            volumes: 0,
            max_xid: 0,
            checkpoint_nxsb_count: 0,
        }
    }
}

/// One more, up to the largest number.
pub open spec fn next64(n: u64) -> u64 {
    if n == u64::MAX {
        n
    } else {
        (n + 1) as u64
    }
}

/// One more, up to the largest number.
pub open spec fn next32(n: u32) -> u32 {
    if n == u32::MAX {
        n
    } else {
        (n + 1) as u32
    }
}

/// The larger number.
pub open spec fn larger(a: u64, b: u64) -> u64 {
    if a < b {
        b
    } else {
        a
    }
}

impl VerifyReport {
    /// The report with one more block.
    pub open spec fn block(self) -> VerifyReport {
        VerifyReport { blocks_checked: next64(self.blocks_checked), ..self }
    }

    /// The report with one more tree node.
    pub open spec fn node(self) -> VerifyReport {
        VerifyReport { btree_nodes_visited: next64(self.btree_nodes_visited), ..self.block() }
    }

    /// The report with one more container superblock in the ring.
    pub open spec fn ring_superblock(self) -> VerifyReport {
        VerifyReport { checkpoint_nxsb_count: next32(self.checkpoint_nxsb_count), ..self }
    }

    /// The report with a transaction id seen.
    pub open spec fn xid(self, xid: u64) -> VerifyReport {
        VerifyReport { max_xid: larger(self.max_xid, xid), ..self }
    }

    /// The report with one more volume.
    pub open spec fn volume(self) -> VerifyReport {
        VerifyReport { volumes: next32(self.volumes), ..self }
    }

    fn count_block(&mut self)
        ensures
            *final(self) == old(self).block(),
    {
        if self.blocks_checked < u64::MAX {
            self.blocks_checked = self.blocks_checked + 1;
        }
    }

    fn count_node(&mut self)
        ensures
            *final(self) == old(self).node(),
    {
        self.count_block();
        if self.btree_nodes_visited < u64::MAX {
            self.btree_nodes_visited = self.btree_nodes_visited + 1;
        }
    }

    fn count_ring_superblock(&mut self)
        ensures
            *final(self) == old(self).ring_superblock(),
    {
        if self.checkpoint_nxsb_count < u32::MAX {
            self.checkpoint_nxsb_count = self.checkpoint_nxsb_count + 1;
        }
    }

    fn count_volume(&mut self)
        ensures
            *final(self) == old(self).volume(),
    {
        if self.volumes < u32::MAX {
            self.volumes = self.volumes + 1;
        }
    }

    fn see_xid(&mut self, xid: u64)
        ensures
            *final(self) == old(self).xid(xid),
    {
        if self.max_xid < xid {
            self.max_xid = xid;
        }
    }
}

/// The outcome of walking a tree from the node at `p`: the report and the
/// nodes visited. A node that was visited before is passed over.
pub open spec fn walk_node(
    disk: Seq<u8>,
    block_size: u32,
    omap_root: Option<u64>,
    p: u64,
    report: VerifyReport,
    visited: Set<u64>,
    levels: u32,
) -> Result<(VerifyReport, Set<u64>), Fault>
    decreases levels, 1int, 0int,
{
    if visited.contains(p) {
        Ok((report, visited))
    } else {
        match verified_block_outcome(disk, p, block_size) {
            Err(e) => Err(e),
            Ok(b) => match node_outcome(b) {
                Err(e) => Err(e),
                Ok(n) => if n.is_leaf() {
                    Ok((report.node(), visited.insert(p)))
                } else if levels == 0 {
                    Err(Fault::BadBTree("tree is too deep"@))
                } else {
                    walk_children(
                        disk,
                        block_size,
                        omap_root,
                        n,
                        0,
                        report.node(),
                        visited.insert(p),
                        levels,
                    )
                },
            },
        }
    }
}

/// The outcome of walking a tree from the children of `n`, from child `i` on.
pub open spec fn walk_children(
    disk: Seq<u8>,
    block_size: u32,
    omap_root: Option<u64>,
    n: NodeView,
    i: int,
    report: VerifyReport,
    visited: Set<u64>,
    levels: u32,
) -> Result<(VerifyReport, Set<u64>), Fault>
    decreases levels, 0int, n.toc.len() - i,
{
    if i >= n.toc.len() || i < 0 || levels == 0 {
        Ok((report, visited))
    } else {
        match child_at(disk, block_size, omap_root, n, i) {
            Err(e) => Err(e),
            Ok(p) => match walk_node(
                disk,
                block_size,
                omap_root,
                p,
                report,
                visited,
                (levels - 1) as u32,
            ) {
                Err(e) => Err(e),
                Ok((r, v)) => walk_children(
                    disk,
                    block_size,
                    omap_root,
                    n,
                    i + 1,
                    r,
                    v,
                    levels,
                ),
            },
        }
    }
}

/// The address of child `i`.
pub open spec fn child_at(
    disk: Seq<u8>,
    block_size: u32,
    omap_root: Option<u64>,
    n: NodeView,
    i: int,
) -> Result<u64, Fault> {
    match n.child_oid(i) {
        Err(e) => Err(e),
        Ok(oid) => resolver(disk, block_size, omap_root)(oid),
    }
}

/// The outcome of walking a whole tree.
pub open spec fn walk_tree(
    disk: Seq<u8>,
    block_size: u32,
    omap_root: Option<u64>,
    root: u64,
    report: VerifyReport,
) -> Result<VerifyReport, Fault> {
    match walk_node(disk, block_size, omap_root, root, report, Set::empty(), TREE_DEPTH_LIMIT) {
        Err(e) => Err(e),
        Ok((r, _)) => Ok(r),
    }
}

/// The outcome of checking one block.
pub open spec fn check_block(disk: Seq<u8>, p: u64, block_size: u32, report: VerifyReport) -> Result<
    VerifyReport,
    Fault,
> {
    match verified_block_outcome(disk, p, block_size) {
        Err(e) => Err(e),
        Ok(_) => Ok(report.block()),
    }
}

/// The outcome of checking a slot of the descriptor ring: the report and the
/// newest superblock so far. Slots past the end of the device are passed over,
/// and so are blocks with a bad checksum, unless they claim to be a superblock.
pub open spec fn check_slot(
    disk: Seq<u8>,
    nx: NxView,
    i: int,
    report: VerifyReport,
    best: Option<NxView>,
) -> Result<(VerifyReport, Option<NxView>), Fault> {
    if nx.xp_desc_base + i > u64::MAX {
        Ok((report, best))
    } else {
        match block_outcome(disk, (nx.xp_desc_base + i) as u64, nx.block_size) {
            Err(_) => Ok((report, best)),
            Ok(b) => if !is_superblock(b) {
                Ok((report.block(), best))
            } else if !intact(b) {
                Err(Fault::BadChecksum)
            } else {
                match nx_outcome(b) {
                    Err(_) => Ok((report.block(), best)),
                    Ok(sb) => Ok(
                        (
                            report.block().ring_superblock(),
                            match best {
                                Some(x) => if x.header.xid >= sb.header.xid {
                                    best
                                } else {
                                    Some(sb)
                                },
                                None => Some(sb),
                            },
                        ),
                    ),
                }
            },
        }
    }
}

/// Whether the header of a block claims a container superblock.
pub open spec fn is_superblock(b: Seq<u8>) -> bool {
    header_outcome(b) matches Ok(h) && h.object_type() == OBJECT_TYPE_NX_SUPERBLOCK
}

/// The outcome of checking the descriptor ring from slot `i` on.
pub open spec fn check_ring(
    disk: Seq<u8>,
    nx: NxView,
    i: int,
    report: VerifyReport,
    best: Option<NxView>,
) -> Result<(VerifyReport, Option<NxView>), Fault>
    decreases nx.xp_desc_blocks - i,
{
    if i >= nx.xp_desc_blocks || i < 0 {
        Ok((report, best))
    } else {
        match check_slot(disk, nx, i, report, best) {
            Err(e) => Err(e),
            Ok((r, b)) => check_ring(disk, nx, i + 1, r, b),
        }
    }
}

/// The volume superblock of `oid`, with a checksum that matches.
pub open spec fn checked_volume(disk: Seq<u8>, root: u64, block_size: u32, oid: u64) -> Result<
    ApfsView,
    Fault,
> {
    match omap_outcome(disk, root, block_size, oid) {
        Err(e) => Err(e),
        Ok(p) => match verified_block_outcome(disk, p, block_size) {
            Err(e) => Err(e),
            Ok(b) => apfs_outcome(b),
        },
    }
}

/// The outcome of checking an object map: its block and its tree. Yields the
/// root of the tree.
pub open spec fn check_omap(disk: Seq<u8>, oid: u64, block_size: u32, report: VerifyReport) -> Result<
    (VerifyReport, u64),
    Fault,
> {
    match omap_tree_root(disk, oid, block_size) {
        Err(e) => Err(e),
        Ok(root) => match check_block(disk, oid, block_size, report) {
            Err(e) => Err(e),
            Ok(r) => match walk_tree(disk, block_size, None, root, r) {
                Err(e) => Err(e),
                Ok(r2) => Ok((r2, root)),
            },
        },
    }
}

/// The outcome of checking the trees of a volume.
pub open spec fn check_trees(disk: Seq<u8>, block_size: u32, vol: ApfsView, report: VerifyReport) -> Result<
    VerifyReport,
    Fault,
> {
    match check_omap(disk, vol.omap_oid, block_size, report) {
        Err(e) => Err(e),
        Ok((r1, root)) => match omap_outcome(disk, root, block_size, vol.root_tree_oid) {
            Err(e) => Err(e),
            Ok(catalog) => match walk_tree(disk, block_size, Some(root), catalog, r1) {
                Err(e) => Err(e),
                Ok(r2) => if vol.extentref_tree_oid == 0 {
                    Ok(r2)
                } else {
                    walk_tree(disk, block_size, None, vol.extentref_tree_oid, r2)
                },
            },
        },
    }
}

/// The outcome of checking one volume.
pub open spec fn check_volume(
    disk: Seq<u8>,
    nx: NxView,
    root: u64,
    oid: u64,
    report: VerifyReport,
) -> Result<VerifyReport, Fault> {
    match checked_volume(disk, root, nx.block_size, oid) {
        Err(e) => Err(e),
        Ok(vol) => if vol.header.xid > nx.header.xid {
            Err(
                Fault::BadCatalog(
                    msg2(
                        "APSB xid "@,
                        vol.header.xid as nat,
                        " exceeds NXSB xid "@,
                        nx.header.xid as nat,
                        ""@,
                    ),
                ),
            )
        } else {
            check_trees(
                disk,
                nx.block_size,
                vol,
                report.block().volume().xid(vol.header.xid),
            )
        },
    }
}

/// The outcome of checking the volumes from slot `i` on.
pub open spec fn check_volumes(
    disk: Seq<u8>,
    nx: NxView,
    root: u64,
    i: int,
    report: VerifyReport,
) -> Result<VerifyReport, Fault>
    decreases nx.fs_oids.len() - i,
{
    if i >= nx.fs_oids.len() || i < 0 {
        Ok(report)
    } else if nx.fs_oids[i] == 0 {
        check_volumes(disk, nx, root, i + 1, report)
    } else {
        match check_volume(disk, nx, root, nx.fs_oids[i], report) {
            Err(e) => Err(e),
            Ok(r) => check_volumes(disk, nx, root, i + 1, r),
        }
    }
}

/// The outcome of checking what a superblock names, when block 0 holds `seed`.
pub open spec fn check_container(
    disk: Seq<u8>,
    seed: NxView,
    nx: NxView,
    report: VerifyReport,
) -> Result<VerifyReport, Fault> {
    if nx.header.xid < seed.header.xid {
        Err(
            Fault::BadCatalog(
                msg2(
                    "checkpoint NXSB xid "@,
                    nx.header.xid as nat,
                    " regressed below block-0 xid "@,
                    seed.header.xid as nat,
                    ""@,
                ),
            ),
        )
    } else {
        match check_omap(disk, nx.omap_oid, nx.block_size, report) {
            Err(e) => Err(e),
            Ok((r, root)) => check_volumes(disk, nx, root, 0, r),
        }
    }
}

/// The outcome of checking an image.
pub open spec fn image_outcome(disk: Seq<u8>) -> Result<VerifyReport, Fault> {
    match first_nx(disk) {
        Err(e) => Err(e),
        Ok(seed) => match check_block(disk, 0, seed.block_size, empty_report()) {
            Err(e) => Err(e),
            Ok(r0) => match check_ring(disk, seed, 0, r0, None) {
                Err(e) => Err(e),
                Ok((r1, best)) => {
                    let nx = match best {
                        Some(x) => x,
                        None => seed,
                    };
                    check_container(disk, seed, nx, r1.xid(nx.header.xid))
                },
            },
        },
    }
}

/// A report, if the call succeeded.
pub open spec fn report_outcome(r: Result<(), ApfsError>, report: VerifyReport) -> Result<
    VerifyReport,
    Fault,
> {
    match r {
        Ok(_) => Ok(report),
        Err(e) => Err(e@),
    }
}

fn resolve_child<D: ReadAt>(
    dev: &D,
    block_size: u32,
    omap_root: Option<u64>,
    node: &BTreeNode,
    i: usize,
) -> (r: Result<u64, ApfsError>)
    ensures
        agrees(
            plain(r),
            child_at(dev.bytes(), block_size, omap_root, node@, i as int),
            dev.reliable(),
        ),
{
    let oid: u64 = node.child_oid_at(i)?;
    match omap_root {
        None => Ok(oid),
        Some(root) => omap_lookup(dev, root, block_size, oid),
    }
}

fn walk_btree_node<D: ReadAt>(
    dev: &D,
    block_num: u64,
    block_size: u32,
    omap_root: Option<u64>,
    report: &mut VerifyReport,
    visited: &mut HashSet<u64>,
    levels: u32,
) -> (r: Result<(), ApfsError>)
    ensures
        agrees(
            match r {
                Ok(_) => Ok((*final(report), final(visited)@)),
                Err(e) => Err(e@),
            },
            walk_node(
                dev.bytes(),
                block_size,
                omap_root,
                block_num,
                *old(report),
                old(visited)@,
                levels,
            ),
            dev.reliable(),
        ),
    decreases levels,
{
    broadcast use vstd::std_specs::hash::group_hash_axioms;

    let ghost seen = visited@;
    if !visited.insert(block_num) {
        assert(seen.insert(block_num) =~= seen);
        return Ok(());
    }
    let data = read_block_verified(dev, block_num, block_size)?;
    report.count_node();
    let node = BTreeNode::parse(data.as_slice())?;
    if node.is_leaf() {
        return Ok(());
    }
    if levels == 0 {
        return Err(bad_btree("tree is too deep"));
    }
    let count: usize = node.nkeys();
    let mut i: usize = 0;
    let ghost goal = walk_children(
        dev.bytes(),
        block_size,
        omap_root,
        node@,
        0,
        *report,
        visited@,
        levels,
    );
    while i < count
        invariant
            i <= count,
            count == node@.toc.len(),
            levels > 0,
            goal == walk_node(
                dev.bytes(),
                block_size,
                omap_root,
                block_num,
                *old(report),
                old(visited)@,
                levels,
            ),
            goal == walk_children(
                dev.bytes(),
                block_size,
                omap_root,
                node@,
                i as int,
                *report,
                visited@,
                levels,
            ),
        decreases count - i,
    {
        let child: u64 = resolve_child(dev, block_size, omap_root, &node, i)?;
        walk_btree_node(dev, child, block_size, omap_root, report, visited, levels - 1)?;
        i += 1;
    }
    Ok(())
}

fn walk_btree<D: ReadAt>(
    dev: &D,
    root_block: u64,
    block_size: u32,
    omap_root: Option<u64>,
    report: &mut VerifyReport,
) -> (r: Result<(), ApfsError>)
    ensures
        agrees(
            report_outcome(r, *final(report)),
            walk_tree(dev.bytes(), block_size, omap_root, root_block, *old(report)),
            dev.reliable(),
        ),
{
    broadcast use vstd::std_specs::hash::group_hash_axioms;

    let mut visited: HashSet<u64> = HashSet::new();
    assert(visited@ =~= Set::empty());
    walk_btree_node(
        dev,
        root_block,
        block_size,
        omap_root,
        report,
        &mut visited,
        TREE_DEPTH_LIMIT,
    )
}

fn verify_block<D: ReadAt>(
    dev: &D,
    block_num: u64,
    block_size: u32,
    report: &mut VerifyReport,
) -> (r: Result<(), ApfsError>)
    ensures
        agrees(
            report_outcome(r, *final(report)),
            check_block(dev.bytes(), block_num, block_size, *old(report)),
            dev.reliable(),
        ),
{
    read_block_verified(dev, block_num, block_size)?;
    report.count_block();
    Ok(())
}

/// A superblock, if there is one, taken by view.
pub open spec fn opt_nx(n: Option<NxSuperblock>) -> Option<NxView> {
    match n {
        Some(x) => Some(x@),
        None => None,
    }
}

fn claims_superblock(block: &[u8]) -> (r: bool)
    ensures
        r == is_superblock(block@),
{
    match ObjectHeader::parse(block) {
        Ok(h) => h.object_type() == OBJECT_TYPE_NX_SUPERBLOCK,
        Err(_) => false,
    }
}

fn newer(best: Option<NxSuperblock>, sb: NxSuperblock) -> (r: Option<NxSuperblock>)
    ensures
        opt_nx(r) == (match opt_nx(best) {
            Some(x) => if x.header.xid >= sb@.header.xid {
                Some(x)
            } else {
                Some(sb@)
            },
            None => Some(sb@),
        }),
{
    match best {
        Some(x) => if x.header.xid >= sb.header.xid {
            Some(x)
        } else {
            Some(sb)
        },
        None => Some(sb),
    }
}

/// Whether the device is large enough to have the block.
fn on_device<D: ReadAt>(dev: &D, paddr: u64, block_size: u32) -> (r: bool)
    ensures
        r == (block_outcome(dev.bytes(), paddr, block_size) is Ok),
{
    let len: u64 = dev.size();
    assert(paddr * block_size >= 0) by (nonlinear_arith);
    match paddr.checked_mul(block_size as u64) {
        Some(at) => at <= len && block_size as u64 <= len - at,
        None => false,
    }
}

fn scan_slot<D: ReadAt>(
    dev: &D,
    nxsb: &NxSuperblock,
    i: u32,
    report: &mut VerifyReport,
    best: Option<NxSuperblock>,
) -> (r: Result<Option<NxSuperblock>, ApfsError>)
    ensures
        agrees(
            match r {
                Ok(b) => Ok((*final(report), opt_nx(b))),
                Err(e) => Err(e@),
            },
            check_slot(dev.bytes(), nxsb@, i as int, *old(report), opt_nx(best)),
            dev.reliable(),
        ),
{
    let paddr: u64 = match nxsb.xp_desc_base.checked_add(i as u64) {
        Some(p) => p,
        None => {
            return Ok(best);
        },
    };
    if !on_device(dev, paddr, nxsb.block_size) {
        return Ok(best);
    }
    let block = read_block(dev, paddr, nxsb.block_size)?;
    report.count_block();
    if !claims_superblock(block.as_slice()) {
        return Ok(best);
    }
    if !fletcher::verify_object(block.as_slice()) {
        return Err(ApfsError::BadChecksum);
    }
    match NxSuperblock::parse(block.as_slice()) {
        Err(_) => Ok(best),
        Ok(sb) => {
            report.count_ring_superblock();
            Ok(newer(best, sb))
        },
    }
}

fn scan_checkpoint_ring<D: ReadAt>(dev: &D, nxsb: &NxSuperblock, report: &mut VerifyReport) -> (r:
    Result<Option<NxSuperblock>, ApfsError>)
    ensures
        agrees(
            match r {
                Ok(b) => Ok((*final(report), opt_nx(b))),
                Err(e) => Err(e@),
            },
            check_ring(dev.bytes(), nxsb@, 0, *old(report), None),
            dev.reliable(),
        ),
{
    let ghost goal = check_ring(dev.bytes(), nxsb@, 0, *report, None);
    let mut best: Option<NxSuperblock> = None;
    let mut i: u32 = 0;
    while i < nxsb.xp_desc_blocks
        invariant
            i <= nxsb.xp_desc_blocks,
            goal == check_ring(dev.bytes(), nxsb@, 0, *old(report), None),
            goal == check_ring(dev.bytes(), nxsb@, i as int, *report, opt_nx(best)),
        decreases nxsb.xp_desc_blocks - i,
    {
        best = scan_slot(dev, nxsb, i, report, best)?;
        i += 1;
    }
    Ok(best)
}

fn verify_omap<D: ReadAt>(dev: &D, oid: u64, block_size: u32, report: &mut VerifyReport) -> (r: Result<
    u64,
    ApfsError,
>)
    ensures
        agrees(
            match r {
                Ok(p) => Ok((*final(report), p)),
                Err(e) => Err(e@),
            },
            check_omap(dev.bytes(), oid, block_size, *old(report)),
            dev.reliable(),
        ),
{
    let root: u64 = read_omap_tree_root(dev, oid, block_size)?;
    verify_block(dev, oid, block_size, report)?;
    walk_btree(dev, root, block_size, None, report)?;
    Ok(root)
}

fn verify_trees<D: ReadAt>(
    dev: &D,
    block_size: u32,
    vol: &ApfsSuperblock,
    report: &mut VerifyReport,
) -> (r: Result<(), ApfsError>)
    ensures
        agrees(
            report_outcome(r, *final(report)),
            check_trees(dev.bytes(), block_size, vol@, *old(report)),
            dev.reliable(),
        ),
{
    let root: u64 = verify_omap(dev, vol.omap_oid, block_size, report)?;
    let catalog: u64 = omap_lookup(dev, root, block_size, vol.root_tree_oid)?;
    walk_btree(dev, catalog, block_size, Some(root), report)?;
    if vol.extentref_tree_oid != 0 {
        walk_btree(dev, vol.extentref_tree_oid, block_size, None, report)?;
    }
    Ok(())
}

fn verify_volume<D: ReadAt>(
    dev: &D,
    nxsb: &NxSuperblock,
    root: u64,
    oid: u64,
    report: &mut VerifyReport,
) -> (r: Result<(), ApfsError>)
    ensures
        agrees(
            report_outcome(r, *final(report)),
            check_volume(dev.bytes(), nxsb@, root, oid, *old(report)),
            dev.reliable(),
        ),
{
    let paddr: u64 = omap_lookup(dev, root, nxsb.block_size, oid)?;
    let data = read_block_verified(dev, paddr, nxsb.block_size)?;
    let vol = ApfsSuperblock::parse(data.as_slice())?;
    report.count_block();
    report.count_volume();
    report.see_xid(vol.header.xid);
    if vol.header.xid > nxsb.header.xid {
        return Err(
            ApfsError::BadCatalog(
                text2(
                    "APSB xid ",
                    vol.header.xid,
                    " exceeds NXSB xid ",
                    nxsb.header.xid,
                    "",
                ),
            ),
        );
    }
    verify_trees(dev, nxsb.block_size, &vol, report)
}

fn verify_container<D: ReadAt>(
    dev: &D,
    seed: &NxSuperblock,
    nxsb: &NxSuperblock,
    report: &mut VerifyReport,
) -> (r: Result<(), ApfsError>)
    ensures
        agrees(
            report_outcome(r, *final(report)),
            check_container(dev.bytes(), seed@, nxsb@, *old(report)),
            dev.reliable(),
        ),
{
    if nxsb.header.xid < seed.header.xid {
        return Err(
            ApfsError::BadCatalog(
                text2(
                    "checkpoint NXSB xid ",
                    nxsb.header.xid,
                    " regressed below block-0 xid ",
                    seed.header.xid,
                    "",
                ),
            ),
        );
    }
    let root: u64 = verify_omap(dev, nxsb.omap_oid, nxsb.block_size, report)?;
    let ghost goal = check_volumes(dev.bytes(), nxsb@, root, 0, *report);
    let mut i: usize = 0;
    while i < nxsb.fs_oids.len()
        invariant
            i <= nxsb.fs_oids.len(),
            agrees(
                goal,
                check_container(dev.bytes(), seed@, nxsb@, *old(report)),
                dev.reliable(),
            ),
            goal == check_volumes(dev.bytes(), nxsb@, root, i as int, *report),
        decreases nxsb.fs_oids.len() - i,
    {
        let oid: u64 = nxsb.fs_oids[i];
        assert(nxsb@.fs_oids[i as int] == oid);
        if oid != 0 {
            verify_volume(dev, nxsb, root, oid, report)?;
        }
        i += 1;
    }
    Ok(())
}

/// Walk an APFS image end-to-end, verifying every checksum.
pub fn verify_image<D: ReadAt>(dev: &D) -> (r: Result<VerifyReport, ApfsError>)
    ensures
        agrees(plain(r), image_outcome(dev.bytes()), dev.reliable()),
{
    let mut report = VerifyReport::default();
    let seed = read_nxsb(dev)?;
    verify_block(dev, 0, seed.block_size, &mut report)?;
    let best = scan_checkpoint_ring(dev, &seed, &mut report)?;
    let nxsb = match best {
        Some(x) => x,
        None => seed.clone(),
    };
    report.see_xid(nxsb.header.xid);
    verify_container(dev, &seed, &nxsb, &mut report)?;
    Ok(report)
}

/// Whether the block at `p` holds an intact node.
pub open spec fn sound_node(disk: Seq<u8>, block_size: u32, p: u64) -> bool {
    verified_block_outcome(disk, p, block_size) matches Ok(b) && node_outcome(b) is Ok
}

/// Whether the children of the node at `p` can be resolved and lie in `v`.
pub open spec fn children_in(
    disk: Seq<u8>,
    block_size: u32,
    omap_root: Option<u64>,
    p: u64,
    v: Set<u64>,
) -> bool {
    let n = node_outcome(verified_block_outcome(disk, p, block_size)->Ok_0)->Ok_0;
    !n.is_leaf() ==> forall|i: int|
        0 <= i < n.toc.len() ==> (#[trigger] child_at(disk, block_size, omap_root, n, i) matches Ok(
            c,
        ) && v.contains(c))
}

/// Whether all nodes that were added to `old_v` are sound, with all their
/// children in `new_v`.
pub open spec fn closed_over(
    disk: Seq<u8>,
    block_size: u32,
    omap_root: Option<u64>,
    old_v: Set<u64>,
    new_v: Set<u64>,
) -> bool {
    &&& old_v.subset_of(new_v)
    &&& forall|p: u64|
        new_v.contains(p) && !old_v.contains(p) ==> #[trigger] sound_node(disk, block_size, p)
            && children_in(disk, block_size, omap_root, p, new_v)
}

proof fn lemma_children_grow(
    disk: Seq<u8>,
    block_size: u32,
    omap_root: Option<u64>,
    p: u64,
    v: Set<u64>,
    w: Set<u64>,
)
    requires
        children_in(disk, block_size, omap_root, p, v),
        v.subset_of(w),
    ensures
        children_in(disk, block_size, omap_root, p, w),
{
    let n = node_outcome(verified_block_outcome(disk, p, block_size)->Ok_0)->Ok_0;
    if !n.is_leaf() {
        assert forall|i: int| 0 <= i < n.toc.len() implies (#[trigger] child_at(
            disk,
            block_size,
            omap_root,
            n,
            i,
        ) matches Ok(c) && w.contains(c)) by {
            assert(child_at(disk, block_size, omap_root, n, i) matches Ok(c) && v.contains(c));
        }
    }
}

proof fn lemma_walk_node(
    disk: Seq<u8>,
    block_size: u32,
    omap_root: Option<u64>,
    p: u64,
    report: VerifyReport,
    visited: Set<u64>,
    levels: u32,
)
    ensures
        walk_node(disk, block_size, omap_root, p, report, visited, levels) matches Ok((_, v)) ==> {
            &&& v.contains(p)
            &&& closed_over(disk, block_size, omap_root, visited, v)
        },
    decreases levels, 1int, 0int,
{
    if !visited.contains(p) && sound_node(disk, block_size, p) {
        let n = node_outcome(verified_block_outcome(disk, p, block_size)->Ok_0)->Ok_0;
        let with_p = visited.insert(p);
        if !n.is_leaf() && levels > 0 {
            lemma_walk_children(
                disk,
                block_size,
                omap_root,
                n,
                0,
                report.node(),
                with_p,
                levels,
            );
            if let Ok((_, v)) = walk_children(
                disk,
                block_size,
                omap_root,
                n,
                0,
                report.node(),
                with_p,
                levels,
            ) {
                assert forall|q: u64| v.contains(q) && !visited.contains(q) implies
                    #[trigger] sound_node(disk, block_size, q) && children_in(
                    disk,
                    block_size,
                    omap_root,
                    q,
                    v,
                ) by {
                    if q != p {
                        assert(!with_p.contains(q));
                    }
                }
            }
        }
    }
}

#[verifier::spinoff_prover]
proof fn lemma_walk_children(
    disk: Seq<u8>,
    block_size: u32,
    omap_root: Option<u64>,
    n: NodeView,
    i: int,
    report: VerifyReport,
    visited: Set<u64>,
    levels: u32,
)
    requires
        0 <= i,
        levels > 0,
    ensures
        walk_children(disk, block_size, omap_root, n, i, report, visited, levels) matches Ok((_, v))
            ==> {
            &&& closed_over(disk, block_size, omap_root, visited, v)
            &&& forall|k: int|
                i <= k < n.toc.len() ==> (#[trigger] child_at(
                    disk,
                    block_size,
                    omap_root,
                    n,
                    k,
                ) matches Ok(c) && v.contains(c))
        },
    decreases levels, 0int, n.toc.len() - i,
{
    if i < n.toc.len() {
        if let Ok(p) = child_at(disk, block_size, omap_root, n, i) {
            lemma_walk_node(disk, block_size, omap_root, p, report, visited, (levels - 1) as u32);
            if let Ok((r, v)) = walk_node(
                disk,
                block_size,
                omap_root,
                p,
                report,
                visited,
                (levels - 1) as u32,
            ) {
                lemma_walk_children(disk, block_size, omap_root, n, i + 1, r, v, levels);
                assert(walk_children(disk, block_size, omap_root, n, i, report, visited, levels)
                    == walk_children(disk, block_size, omap_root, n, i + 1, r, v, levels));
                if let Ok((_, w)) = walk_children(
                    disk,
                    block_size,
                    omap_root,
                    n,
                    i + 1,
                    r,
                    v,
                    levels,
                ) {
                    assert forall|q: u64| w.contains(q) && !visited.contains(q) implies
                        #[trigger] sound_node(disk, block_size, q) && children_in(
                        disk,
                        block_size,
                        omap_root,
                        q,
                        w,
                    ) by {
                        assert(sound_node(disk, block_size, q));
                        if v.contains(q) {
                            lemma_children_grow(disk, block_size, omap_root, q, v, w);
                        }
                    }
                    assert(visited.subset_of(v) && v.subset_of(w));
                    assert(closed_over(disk, block_size, omap_root, visited, w));
                    assert(v.contains(p) && w.contains(p));
                    assert forall|k: int| i <= k < n.toc.len() implies (#[trigger] child_at(
                        disk,
                        block_size,
                        omap_root,
                        n,
                        k,
                    ) matches Ok(c) && w.contains(c)) by {
                        if k > i {
                            assert(i + 1 <= k);
                        }
                    }
                }
            }
        }
    }
}

/// A tree that is walked without a complaint has been checked as a whole: the
/// nodes visited include the root and, with every node, all its children, and
/// each of them is a readable block with a right checksum that parses.
pub proof fn law_walk_checks_whole_tree(
    disk: Seq<u8>,
    block_size: u32,
    omap_root: Option<u64>,
    root: u64,
    report: VerifyReport,
)
    requires
        walk_tree(disk, block_size, omap_root, root, report) is Ok,
    ensures
        exists|v: Set<u64>|
            v.contains(root) && #[trigger] closed_over(
                disk,
                block_size,
                omap_root,
                Set::empty(),
                v,
            ),
{
    lemma_walk_node(disk, block_size, omap_root, root, report, Set::empty(), TREE_DEPTH_LIMIT);
    let v = walk_node(
        disk,
        block_size,
        omap_root,
        root,
        report,
        Set::empty(),
        TREE_DEPTH_LIMIT,
    )->Ok_0.1;
    assert(closed_over(disk, block_size, omap_root, Set::empty(), v));
}

/// How many volumes slots name from `i` on.
pub open spec fn named_volumes(fs_oids: Seq<u64>, i: int) -> int
    decreases fs_oids.len() - i,
{
    if i >= fs_oids.len() || i < 0 {
        0
    } else if fs_oids[i] != 0 {
        1 + named_volumes(fs_oids, i + 1)
    } else {
        named_volumes(fs_oids, i + 1)
    }
}

/// Walking a tree counts nodes and blocks, one for one, and nothing else.
proof fn lemma_walk_counts(
    disk: Seq<u8>,
    block_size: u32,
    omap_root: Option<u64>,
    p: u64,
    report: VerifyReport,
    visited: Set<u64>,
    levels: u32,
)
    ensures
        walk_node(disk, block_size, omap_root, p, report, visited, levels) matches Ok((r, _))
            ==> counts_nodes(report, r),
    decreases levels, 1int, 0int,
{
    if !visited.contains(p) {
        if let Ok(b) = verified_block_outcome(disk, p, block_size) {
            if let Ok(n) = node_outcome(b) {
                if !n.is_leaf() && levels > 0 {
                    lemma_children_counts(
                        disk,
                        block_size,
                        omap_root,
                        n,
                        0,
                        report.node(),
                        visited.insert(p),
                        levels,
                    );
                }
            }
        }
    }
}

proof fn lemma_children_counts(
    disk: Seq<u8>,
    block_size: u32,
    omap_root: Option<u64>,
    n: NodeView,
    i: int,
    report: VerifyReport,
    visited: Set<u64>,
    levels: u32,
)
    ensures
        walk_children(disk, block_size, omap_root, n, i, report, visited, levels) matches Ok((r, _))
            ==> counts_nodes(report, r),
    decreases levels, 0int, n.toc.len() - i,
{
    if 0 <= i < n.toc.len() && levels > 0 {
        if let Ok(p) = child_at(disk, block_size, omap_root, n, i) {
            lemma_walk_counts(
                disk,
                block_size,
                omap_root,
                p,
                report,
                visited,
                (levels - 1) as u32,
            );
            if let Ok((r, v)) = walk_node(
                disk,
                block_size,
                omap_root,
                p,
                report,
                visited,
                (levels - 1) as u32,
            ) {
                lemma_children_counts(disk, block_size, omap_root, n, i + 1, r, v, levels);
            }
        }
    }
}

/// Whether a report differs from an earlier one only in that tree nodes were
/// counted, each of them as a block too.
pub open spec fn counts_nodes(a: VerifyReport, b: VerifyReport) -> bool {
    &&& b.volumes == a.volumes
    &&& b.max_xid == a.max_xid
    &&& b.checkpoint_nxsb_count == a.checkpoint_nxsb_count
    &&& a.btree_nodes_visited <= b.btree_nodes_visited
    &&& a.blocks_checked <= b.blocks_checked
    &&& b.blocks_checked < u64::MAX && b.btree_nodes_visited < u64::MAX ==> b.blocks_checked
        - a.blocks_checked == b.btree_nodes_visited - a.btree_nodes_visited
}

/// Walking a tree counts its nodes, the root among them, each of them as a block
/// too, and changes nothing else of the report.
pub proof fn law_walk_counts_nodes(
    disk: Seq<u8>,
    block_size: u32,
    omap_root: Option<u64>,
    root: u64,
    report: VerifyReport,
)
    ensures
        walk_tree(disk, block_size, omap_root, root, report) matches Ok(r) ==> counts_nodes(
            report,
            r,
        ),
{
    lemma_walk_counts(disk, block_size, omap_root, root, report, Set::empty(), TREE_DEPTH_LIMIT);
}

proof fn lemma_trees_count(disk: Seq<u8>, block_size: u32, vol: ApfsView, report: VerifyReport)
    ensures
        check_trees(disk, block_size, vol, report) matches Ok(r) ==> r.volumes == report.volumes
            && r.max_xid == report.max_xid && r.checkpoint_nxsb_count
            == report.checkpoint_nxsb_count,
{
    if let Ok(omap) = omap_tree_root(disk, vol.omap_oid, block_size) {
        law_walk_counts_nodes(disk, block_size, None, omap, report.block());
        if let Ok((r1, root)) = check_omap(disk, vol.omap_oid, block_size, report) {
            if let Ok(catalog) = omap_outcome(disk, root, block_size, vol.root_tree_oid) {
                law_walk_counts_nodes(disk, block_size, Some(root), catalog, r1);
                if let Ok(r2) = walk_tree(disk, block_size, Some(root), catalog, r1) {
                    law_walk_counts_nodes(disk, block_size, None, vol.extentref_tree_oid, r2);
                }
            }
        }
    }
}

/// An image that is checked without a complaint has as many volumes in the
/// report as its superblock names, none of which is newer than the superblock,
/// and the transaction of the superblock is the highest one that is told.
#[verifier::spinoff_prover]
#[verifier::rlimit(60)]
pub proof fn law_every_volume_is_checked(
    disk: Seq<u8>,
    nx: NxView,
    root: u64,
    i: int,
    report: VerifyReport,
)
    requires
        0 <= i <= nx.fs_oids.len(),
        report.volumes + nx.fs_oids.len() - i < u32::MAX,
        report.max_xid == nx.header.xid,
        check_volumes(disk, nx, root, i, report) is Ok,
    ensures
        ({
            let r = check_volumes(disk, nx, root, i, report)->Ok_0;
            &&& r.volumes == report.volumes + named_volumes(nx.fs_oids, i)
            &&& r.max_xid == nx.header.xid
            &&& r.checkpoint_nxsb_count == report.checkpoint_nxsb_count
            &&& forall|k: int|
                i <= k < nx.fs_oids.len() && (#[trigger] nx.fs_oids[k]) != 0 ==> (checked_volume(
                    disk,
                    root,
                    nx.block_size,
                    nx.fs_oids[k],
                ) matches Ok(vol) && vol.header.xid <= nx.header.xid)
        }),
    decreases nx.fs_oids.len() - i,
{
    if i < nx.fs_oids.len() {
        if nx.fs_oids[i] == 0 {
            law_every_volume_is_checked(disk, nx, root, i + 1, report);
        } else {
            let vol = checked_volume(disk, root, nx.block_size, nx.fs_oids[i])->Ok_0;
            let start = report.block().volume().xid(vol.header.xid);
            lemma_trees_count(disk, nx.block_size, vol, start);
            let r = check_volume(disk, nx, root, nx.fs_oids[i], report)->Ok_0;
            law_every_volume_is_checked(disk, nx, root, i + 1, r);
        }
    }
}

/// A block of the ring that claims to be a superblock counts as one if it can
/// be read, the newest of them is kept, and a broken one is a complaint. Other
/// blocks count as blocks only.
pub proof fn law_ring_slots_are_checked(
    disk: Seq<u8>,
    nx: NxView,
    i: int,
    report: VerifyReport,
    best: Option<NxView>,
)
    requires
        0 <= i,
        nx.xp_desc_base + i <= u64::MAX,
        report.checkpoint_nxsb_count < u32::MAX,
        report.blocks_checked < u64::MAX,
        block_outcome(disk, (nx.xp_desc_base + i) as u64, nx.block_size) is Ok,
    ensures
        ({
            let b = block_outcome(disk, (nx.xp_desc_base + i) as u64, nx.block_size)->Ok_0;
            let r = check_slot(disk, nx, i, report, best);
            let claims = header_outcome(b) matches Ok(h) && h.object_type() == 1;
            &&& claims && !intact(b) ==> r == Err::<(VerifyReport, Option<NxView>), Fault>(
                Fault::BadChecksum,
            )
            &&& !claims ==> r == Ok::<(VerifyReport, Option<NxView>), Fault>(
                (
                    VerifyReport {
                        blocks_checked: (report.blocks_checked + 1) as u64,
                        ..report
                    },
                    best,
                ),
            )
            &&& claims && intact(b) && nx_outcome(b) is Ok ==> (r matches Ok((now, kept)) && {
                let sb = nx_outcome(b)->Ok_0;
                &&& now.checkpoint_nxsb_count == report.checkpoint_nxsb_count + 1
                &&& now.blocks_checked == report.blocks_checked + 1
                &&& now.volumes == report.volumes
                &&& kept matches Some(k) && k.header.xid >= sb.header.xid && (k == sb || best
                    == Some(k))
                &&& best matches Some(was) ==> kept->0.header.xid >= was.header.xid
            })
        }),
{
}

} // verus!
