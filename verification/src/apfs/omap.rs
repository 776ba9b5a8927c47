//! Object map (OMAP).
//!
//! An OMAP is a `(oid, xid) -> paddr` translation B-tree. Container objects
//! use the container's OMAP to resolve virtual OIDs, and each volume has its
//! own OMAP for its catalog tree.

use crate::apfs::btree::BTreeNode;
use crate::apfs::btree::node::NodeView;
use crate::apfs::btree::search::{
    btree_scan, find_leaf, models, node_at, pairs_seq, read_node, selects, through, tree_leaf,
    tree_pairs, tree_scan, Physical, ResolveOid,
};
use crate::apfs::bytes::{
    array16, bytes_u32, bytes_u64, group_bytes_len, le_u32, le_u64, lemma_read_u32, lemma_read_u64,
    push_u32, push_u64, rd_u32, rd_u64,
};
use crate::apfs::device::ReadAt;
use crate::apfs::error::{bad_btree, internal, plain, ApfsError, Fault};
use crate::apfs::object::{
    agrees, block_outcome, expect_type_outcome, header_outcome, read_block, ObjectHeader,
    OBJECT_TYPE_OMAP,
};
use crate::apfs::text::{msg1, text1};
use std::cmp::Ordering;
use vstd::prelude::*;

verus! {

/// Size of `omap_key_t` on disk.
pub const OMAP_KEY_SIZE: u32 = 16;

/// Size of `omap_val_t` on disk.
pub const OMAP_VAL_SIZE: u32 = 16;

#[derive(Debug, Clone, Copy, PartialEq, Eq, Structural)]
pub struct OmapKey {
    pub oid: u64,
    pub xid: u64,
}

#[derive(Debug, Clone, Copy, PartialEq, Eq, Structural)]
pub struct OmapVal {
    pub flags: u32,
    pub size: u32,
    pub paddr: u64,
}

/// The key stored in `b`.
pub open spec fn omap_key_of(b: Seq<u8>) -> OmapKey {
    OmapKey { oid: le_u64(b, 0), xid: le_u64(b, 8) }
}

/// The value stored in `b`.
pub open spec fn omap_val_of(b: Seq<u8>) -> OmapVal {
    OmapVal { flags: le_u32(b, 0), size: le_u32(b, 4), paddr: le_u64(b, 8) }
}

/// The 16 bytes of a key.
pub open spec fn omap_key_bytes(k: OmapKey) -> Seq<u8> {
    bytes_u64(k.oid) + bytes_u64(k.xid)
}

/// The 16 bytes of a value.
pub open spec fn omap_val_bytes(v: OmapVal) -> Seq<u8> {
    bytes_u32(v.flags) + bytes_u32(v.size) + bytes_u64(v.paddr)
}

/// A key read from a buffer.
pub open spec fn omap_key_outcome(b: Seq<u8>) -> Result<OmapKey, Fault> {
    if b.len() < 16 {
        Err(Fault::Truncated { need: 16, have: b.len() as int })
    } else {
        Ok(omap_key_of(b))
    }
}

/// A value read from a buffer.
pub open spec fn omap_val_outcome(b: Seq<u8>) -> Result<OmapVal, Fault> {
    if b.len() < 16 {
        Err(Fault::Truncated { need: 16, have: b.len() as int })
    } else {
        Ok(omap_val_of(b))
    }
}

impl OmapKey {
    pub fn parse(b: &[u8]) -> (r: Result<Self, ApfsError>)
        ensures
            plain(r) == omap_key_outcome(b@),
    {
        if b.len() < 16 {
            return Err(ApfsError::Truncated { need: 16, have: b.len() });
        }
        Ok(OmapKey { oid: rd_u64(b, 0), xid: rd_u64(b, 8) })
    }

    pub fn to_bytes(self) -> (a: [u8; 16])
        ensures
            a@ == omap_key_bytes(self),
    {
        broadcast use group_bytes_len;

        let mut v: Vec<u8> = Vec::new();
        push_u64(&mut v, self.oid);
        push_u64(&mut v, self.xid);
        assert(v@ =~= omap_key_bytes(self));
        array16(v.as_slice())
    }
}

impl OmapVal {
    pub fn parse(b: &[u8]) -> (r: Result<Self, ApfsError>)
        ensures
            plain(r) == omap_val_outcome(b@),
    {
        if b.len() < 16 {
            return Err(ApfsError::Truncated { need: 16, have: b.len() });
        }
        Ok(OmapVal { flags: rd_u32(b, 0), size: rd_u32(b, 4), paddr: rd_u64(b, 8) })
    }

    pub fn to_bytes(self) -> (a: [u8; 16])
        ensures
            a@ == omap_val_bytes(self),
    {
        broadcast use group_bytes_len;

        let mut v: Vec<u8> = Vec::new();
        push_u32(&mut v, self.flags);
        push_u32(&mut v, self.size);
        push_u64(&mut v, self.paddr);
        assert(v@ =~= omap_val_bytes(self));
        array16(v.as_slice())
    }
}

/// The tree root that the `omap_phys_t` in block `omap_oid` names.
pub open spec fn omap_tree_root(disk: Seq<u8>, omap_oid: u64, block_size: u32) -> Result<u64, Fault> {
    match block_outcome(disk, omap_oid, block_size) {
        Err(e) => Err(e),
        Ok(b) => match header_outcome(b) {
            Err(e) => Err(e),
            Ok(h) => match expect_type_outcome(h, OBJECT_TYPE_OMAP) {
                Err(e) => Err(e),
                Ok(_) => if b.len() - 32 < 24 {
                    Err(Fault::Truncated { need: 24, have: b.len() - 32 })
                } else {
                    Ok(le_u64(b, 48))
                },
            },
        },
    }
}

/// Read the `omap_phys_t` at `omap_oid` (a physical block number) and return
/// the address of the B-tree root. After the header come `om_flags`,
/// `om_snap_count`, `om_tree_type` and `om_snapshot_tree_type`, then the
/// physical `om_tree_oid`.
pub fn read_omap_tree_root<D: ReadAt>(dev: &D, omap_oid: u64, block_size: u32) -> (r: Result<
    u64,
    ApfsError,
>)
    ensures
        agrees(plain(r), omap_tree_root(dev.bytes(), omap_oid, block_size), dev.reliable()),
{
    let block = read_block(dev, omap_oid, block_size)?;
    let header = ObjectHeader::parse(block.as_slice())?;
    header.expect_type(OBJECT_TYPE_OMAP)?;
    if block.len() - 32 < 24 {
        return Err(ApfsError::Truncated { need: 24, have: block.len() - 32 });
    }
    Ok(rd_u64(block.as_slice(), 48))
}

/// Where a key stands relative to the entries of `oid`. Keys that are too
/// short count as lying below.
pub open spec fn omap_rank(k: Seq<u8>, oid: u64) -> int {
    if k.len() < 16 { -1 } else { omap_key_of(k).oid - oid }
}

/// The search for the entries of `oid`.
pub open spec fn omap_search(oid: u64) -> spec_fn(Seq<u8>) -> int {
    |k: Seq<u8>| omap_rank(k, oid)
}

/// The entry of `oid` with the highest transaction id, from entry `i` on and
/// before the first entry of a higher OID; `best` is the one found so far with
/// its transaction id.
pub open spec fn newest_entry(n: NodeView, fks: u32, oid: u64, i: int, best: Option<(int, u64)>) -> Result<
    Option<int>,
    Fault,
>
    decreases n.toc.len() - i,
{
    if i >= n.toc.len() {
        Ok(best_index(best))
    } else {
        match n.key(i, fks) {
            Err(e) => Err(e),
            Ok(k) => if omap_rank(k, oid) > 0 {
                Ok(best_index(best))
            } else if omap_rank(k, oid) == 0 && !(best matches Some((_, x)) && x > omap_key_of(
                k,
            ).xid) {
                newest_entry(n, fks, oid, i + 1, Some((i, omap_key_of(k).xid)))
            } else {
                newest_entry(n, fks, oid, i + 1, best)
            },
        }
    }
}

/// The index part of a best entry.
pub open spec fn best_index(best: Option<(int, u64)>) -> Option<int> {
    match best {
        Some((i, _)) => Some(i),
        None => None,
    }
}

/// What is said when an OID has no entry.
pub open spec fn no_entry(oid: u64) -> Fault {
    Fault::NotFound(msg1("omap oid "@, oid as nat, ""@))
}

/// The address that an object map gives for an OID.
pub open spec fn omap_outcome(disk: Seq<u8>, omap_root: u64, block_size: u32, oid: u64) -> Result<
    u64,
    Fault,
> {
    match tree_leaf(
        disk,
        omap_root,
        block_size,
        OMAP_KEY_SIZE,
        OMAP_VAL_SIZE,
        omap_search(oid),
        through(Physical, disk),
    ) {
        Err(e) => Err(e),
        Ok(None) => Err(no_entry(oid)),
        Ok(Some((leaf, _, fks, fvs))) => match newest_entry(leaf, fks, oid, 0, None) {
            Err(e) => Err(e),
            Ok(None) => Err(no_entry(oid)),
            Ok(Some(i)) => match leaf.value(i, fvs) {
                Err(e) => Err(e),
                Ok(v) => match omap_val_outcome(v) {
                    Err(e) => Err(e),
                    Ok(val) => Ok(val.paddr),
                },
            },
        },
    }
}

/// How OIDs are resolved: through the object map with this root, or, without
/// one, not at all.
pub open spec fn resolver(disk: Seq<u8>, block_size: u32, omap_root: Option<u64>) -> spec_fn(
    u64,
) -> Result<u64, Fault> {
    match omap_root {
        Some(root) => through(ThroughOmap { root, block_size }, disk),
        None => through(Physical, disk),
    }
}

/// OIDs are looked up in an object map.
pub struct ThroughOmap {
    pub root: u64,
    pub block_size: u32,
}

impl ResolveOid for ThroughOmap {
    open spec fn target(&self, disk: Seq<u8>, oid: u64) -> Result<u64, Fault> {
        omap_outcome(disk, self.root, self.block_size, oid)
    }

    fn resolve<D: ReadAt>(&self, dev: &D, oid: u64) -> (r: Result<u64, ApfsError>) {
        omap_lookup(dev, self.root, self.block_size, oid)
    }
}

fn missing(oid: u64) -> (e: ApfsError)
    ensures
        e@ == no_entry(oid),
{
    ApfsError::NotFound(text1("omap oid ", oid, ""))
}

fn find_newest(n: &BTreeNode, fks: u32, oid: u64) -> (r: Result<Option<usize>, ApfsError>)
    ensures
        match r {
            Ok(Some(i)) => i < n@.toc.len() && newest_entry(n@, fks, oid, 0, None) == Ok::<
                Option<int>,
                Fault,
            >(Some(i as int)),
            Ok(None) => newest_entry(n@, fks, oid, 0, None) == Ok::<Option<int>, Fault>(None),
            Err(e) => newest_entry(n@, fks, oid, 0, None) == Err::<Option<int>, Fault>(e@),
        },
{
    let mut best: Option<usize> = None;
    let mut best_xid: u64 = 0;
    let mut i: usize = 0;
    let count: usize = n.nkeys();
    while i < count
        invariant
            i <= count,
            count == n@.toc.len(),
            best matches Some(b) ==> b < i,
            newest_entry(n@, fks, oid, 0, None) == newest_entry(
                n@,
                fks,
                oid,
                i as int,
                match best {
                    Some(b) => Some((b as int, best_xid)),
                    None => None,
                },
            ),
        decreases count - i,
    {
        let key = n.key_at(i, fks)?;
        if key.len() >= 16 {
            let k = OmapKey { oid: rd_u64(key, 0), xid: rd_u64(key, 8) };
            if k.oid > oid {
                return Ok(best);
            }
            if k.oid == oid && (best.is_none() || best_xid <= k.xid) {
                best = Some(i);
                best_xid = k.xid;
            }
        }
        i += 1;
    }
    Ok(best)
}

/// Resolve an OID to its latest address. Entries are keyed by `(oid, xid)`;
/// the one with the highest xid is picked.
pub fn omap_lookup<D: ReadAt>(dev: &D, omap_root: u64, block_size: u32, oid: u64) -> (r: Result<
    u64,
    ApfsError,
>)
    ensures
        agrees(
            plain(r),
            omap_outcome(dev.bytes(), omap_root, block_size, oid),
            dev.reliable(),
        ),
{
    let order = |key: &[u8]| -> (o: Ordering)
        ensures
            match o {
                Ordering::Less => omap_rank(key@, oid) < 0,
                Ordering::Equal => omap_rank(key@, oid) == 0,
                Ordering::Greater => omap_rank(key@, oid) > 0,
            },
        {
            if key.len() < 16 {
                return Ordering::Less;
            }
            let k: u64 = rd_u64(key, 0);
            if k < oid {
                Ordering::Less
            } else if k == oid {
                Ordering::Equal
            } else {
                Ordering::Greater
            }
        };
    assert(models(order, omap_search(oid)));
    match find_leaf(
        dev,
        omap_root,
        block_size,
        OMAP_KEY_SIZE,
        OMAP_VAL_SIZE,
        &order,
        &Physical,
    )? {
        None => Err(missing(oid)),
        Some((leaf, _, fks, fvs)) => match find_newest(&leaf, fks, oid)? {
            None => Err(missing(oid)),
            Some(i) => {
                let v = leaf.value_at(i, fvs)?;
                let val = OmapVal::parse(v)?;
                Ok(val.paddr)
            },
        },
    }
}

/// Which keys a scan for `oid` selects, and where it ends.
pub open spec fn omap_pick(k: Seq<u8>, oid: u64) -> Option<bool> {
    if omap_rank(k, oid) < 0 {
        Some(false)
    } else if omap_rank(k, oid) == 0 {
        Some(true)
    } else {
        None
    }
}

/// The scan for the entries of `oid`.
pub open spec fn omap_selection(oid: u64) -> spec_fn(Seq<u8>) -> Option<bool> {
    |k: Seq<u8>| omap_pick(k, oid)
}

/// Mappings read from pairs of buffers, from pair `i` on.
pub open spec fn omap_mappings(pairs: Seq<(Seq<u8>, Seq<u8>)>, i: int) -> Result<
    Seq<(OmapKey, OmapVal)>,
    Fault,
>
    decreases pairs.len() - i,
{
    if i >= pairs.len() {
        Ok(Seq::empty())
    } else {
        match omap_key_outcome(pairs[i].0) {
            Err(e) => Err(e),
            Ok(k) => match omap_val_outcome(pairs[i].1) {
                Err(e) => Err(e),
                Ok(v) => match omap_mappings(pairs, i + 1) {
                    Err(e) => Err(e),
                    Ok(rest) => Ok(seq![(k, v)] + rest),
                },
            },
        }
    }
}

/// All mappings that an object map holds for an OID.
pub open spec fn omap_scan_outcome(disk: Seq<u8>, omap_root: u64, block_size: u32, oid: u64) -> Result<
    Seq<(OmapKey, OmapVal)>,
    Fault,
> {
    match tree_pairs(
        tree_scan(
            disk,
            omap_root,
            block_size,
            OMAP_KEY_SIZE,
            OMAP_VAL_SIZE,
            omap_selection(oid),
            resolver(disk, block_size, None),
        ),
    ) {
        Err(e) => Err(e),
        Ok(pairs) => omap_mappings(pairs, 0),
    }
}

/// A list of mappings in front of what reading the rest gives.
pub open spec fn mappings_after(
    seen: Seq<(OmapKey, OmapVal)>,
    rest: Result<Seq<(OmapKey, OmapVal)>, Fault>,
) -> Result<Seq<(OmapKey, OmapVal)>, Fault> {
    match rest {
        Err(e) => Err(e),
        Ok(more) => Ok(seen + more),
    }
}

/// Scan the OMAP for all mappings with the given oid. Used by the verifier to
/// spot-check translations.
pub fn omap_scan<D: ReadAt>(dev: &D, omap_root: u64, block_size: u32, target_oid: u64) -> (r: Result<
    Vec<(OmapKey, OmapVal)>,
    ApfsError,
>)
    ensures
        agrees(
            crate::apfs::error::outcome(r),
            omap_scan_outcome(dev.bytes(), omap_root, block_size, target_oid),
            dev.reliable(),
        ),
{
    let range = |key: &[u8]| -> (o: Option<bool>)
        ensures
            o == omap_pick(key@, target_oid),
        {
            if key.len() < 16 {
                return Some(false);
            }
            let k: u64 = rd_u64(key, 0);
            if k < target_oid {
                Some(false)
            } else if k == target_oid {
                Some(true)
            } else {
                None
            }
        };
    assert(selects(range, omap_selection(target_oid)));
    let entries = btree_scan(
        dev,
        omap_root,
        block_size,
        OMAP_KEY_SIZE,
        OMAP_VAL_SIZE,
        &range,
        None,
    )?;
    let ghost pairs = pairs_seq(entries@);
    let mut out: Vec<(OmapKey, OmapVal)> = Vec::new();
    let mut i: usize = 0;
    assert(mappings_after(out@, omap_mappings(pairs, 0)) == omap_mappings(pairs, 0)) by {
        if omap_mappings(pairs, 0) is Ok {
            assert(out@ + omap_mappings(pairs, 0)->Ok_0 =~= omap_mappings(pairs, 0)->Ok_0);
        }
    }
    while i < entries.len()
        invariant
            i <= entries.len(),
            pairs == pairs_seq(entries@),
            agrees(
                omap_mappings(pairs, 0),
                omap_scan_outcome(dev.bytes(), omap_root, block_size, target_oid),
                dev.reliable(),
            ),
            mappings_after(out@, omap_mappings(pairs, i as int)) == omap_mappings(pairs, 0),
        decreases entries.len() - i,
    {
        let (kb, vb) = &entries[i];
        assert(pairs[i as int] == (kb@, vb@));
        let k = OmapKey::parse(kb.as_slice())?;
        let v = OmapVal::parse(vb.as_slice())?;
        let ghost before = out@;
        out.push((k, v));
        proof {
            let rest = omap_mappings(pairs, i + 1);
            if rest is Ok {
                assert(before + (seq![(k, v)] + rest->Ok_0) =~= out@ + rest->Ok_0);
            }
        }
        i += 1;
    }
    assert(out@ + Seq::<(OmapKey, OmapVal)>::empty() =~= out@);
    Ok(out)
}

/// Whether one key comes before another.
pub open spec fn omap_before(a: OmapKey, b: OmapKey) -> bool {
    a.oid < b.oid || (a.oid == b.oid && a.xid < b.xid)
}

/// The position of a new key among the entries from `i` on.
pub open spec fn omap_slot(n: NodeView, key: OmapKey, i: int) -> Result<int, Fault>
    decreases n.toc.len() - i,
{
    if i >= n.toc.len() {
        Ok(i)
    } else {
        match n.key(i, OMAP_KEY_SIZE) {
            Err(e) => Err(e),
            Ok(b) => match omap_key_outcome(b) {
                Err(e) => Err(e),
                Ok(k) => if omap_before(k, key) {
                    omap_slot(n, key, i + 1)
                } else if k == key {
                    Err(Fault::Internal("omap_insert_at_leaf: duplicate (oid, xid)"@))
                } else {
                    Ok(i)
                },
            },
        }
    }
}

/// The outcome of inserting a mapping into a leaf, and the leaf afterwards.
pub open spec fn omap_insert_outcome(
    n: NodeView,
    block_size: u32,
    oid: u64,
    xid: u64,
    paddr: u64,
) -> (Result<int, Fault>, NodeView) {
    if !n.is_leaf() {
        (Err(Fault::BadBTree("omap_insert_at_leaf: target node is not a leaf"@)), n)
    } else {
        match omap_slot(n, OmapKey { oid, xid }, 0) {
            Err(e) => (Err(e), n),
            Ok(i) => match n.insert_fixed(
                i,
                omap_key_bytes(OmapKey { oid, xid }),
                omap_val_bytes(OmapVal { flags: 0, size: block_size, paddr }),
                OMAP_KEY_SIZE,
                OMAP_VAL_SIZE,
            ) {
                (Err(e), m) => (Err(e), m),
                (Ok(_), m) => (Ok(i), m),
            },
        }
    }
}

/// A position, taken as a mathematical integer.
pub open spec fn index_view(r: Result<usize, ApfsError>) -> Result<int, Fault> {
    match r {
        Ok(i) => Ok(i as int),
        Err(e) => Err(e@),
    }
}

fn find_slot(n: &BTreeNode, key: OmapKey) -> (r: Result<usize, ApfsError>)
    ensures
        index_view(r) == omap_slot(n@, key, 0),
{
    let mut i: usize = 0;
    let count: usize = n.nkeys();
    while i < count
        invariant
            i <= count,
            count == n@.toc.len(),
            omap_slot(n@, key, 0) == omap_slot(n@, key, i as int),
        decreases count - i,
    {
        let b = n.key_at(i, OMAP_KEY_SIZE)?;
        let k = OmapKey::parse(b)?;
        if k.oid < key.oid || (k.oid == key.oid && k.xid < key.xid) {
            i += 1;
        } else if k.oid == key.oid && k.xid == key.xid {
            return Err(internal("omap_insert_at_leaf: duplicate (oid, xid)"));
        } else {
            return Ok(i);
        }
    }
    Ok(i)
}

/// Insert an `(oid, xid) -> paddr` entry into a leaf, in `(oid, xid)` order.
/// Returns the insertion index.
pub fn omap_insert(node: &mut BTreeNode, block_size: u32, oid: u64, xid: u64, paddr: u64) -> (r:
    Result<usize, ApfsError>)
    ensures
        (index_view(r), final(node)@) == omap_insert_outcome(
            old(node)@,
            block_size,
            oid,
            xid,
            paddr,
        ),
{
    if !node.is_leaf() {
        return Err(bad_btree("omap_insert_at_leaf: target node is not a leaf"));
    }
    let key = OmapKey { oid, xid };
    let val = OmapVal { flags: 0, size: block_size, paddr };
    let idx: usize = find_slot(node, key)?;
    node.insert_leaf_fixed(idx, &key.to_bytes(), &val.to_bytes(), OMAP_KEY_SIZE, OMAP_VAL_SIZE)?;
    Ok(idx)
}

/// The index at which a mapping goes into the leaf at `leaf_paddr`.
pub open spec fn omap_insert_at_leaf_outcome(
    disk: Seq<u8>,
    leaf_paddr: u64,
    block_size: u32,
    oid: u64,
    xid: u64,
    paddr: u64,
) -> Result<int, Fault> {
    match node_at(disk, leaf_paddr, block_size) {
        Err(e) => Err(e),
        Ok(n) => omap_insert_outcome(n, block_size, oid, xid, paddr).0,
    }
}

/// Insert an `(oid, xid) -> paddr` entry into the leaf at `leaf_paddr` and
/// return the insertion index. The device is only read: the caller applies
/// [`omap_insert`] to the node that it is going to commit.
pub fn omap_insert_at_leaf<D: ReadAt>(
    dev: &D,
    leaf_paddr: u64,
    block_size: u32,
    oid: u64,
    xid: u64,
    paddr: u64,
) -> (r: Result<usize, ApfsError>)
    ensures
        agrees(
            index_view(r),
            omap_insert_at_leaf_outcome(dev.bytes(), leaf_paddr, block_size, oid, xid, paddr),
            dev.reliable(),
        ),
{
    let mut node = read_node(dev, leaf_paddr, block_size)?;
    omap_insert(&mut node, block_size, oid, xid, paddr)
}

/// Parsing a key gives back what was written.
pub proof fn law_omap_key_roundtrip(k: OmapKey)
    ensures
        omap_key_outcome(omap_key_bytes(k)) == Ok::<OmapKey, Fault>(k),
{
    broadcast use group_bytes_len;

    let b = omap_key_bytes(k);
    assert(b.subrange(0, 8) =~= bytes_u64(k.oid));
    assert(b.subrange(8, 16) =~= bytes_u64(k.xid));
    lemma_read_u64(b, 0, k.oid);
    lemma_read_u64(b, 8, k.xid);
}

/// Parsing a value gives back what was written.
pub proof fn law_omap_val_roundtrip(v: OmapVal)
    ensures
        omap_val_outcome(omap_val_bytes(v)) == Ok::<OmapVal, Fault>(v),
{
    broadcast use group_bytes_len;

    let b = omap_val_bytes(v);
    assert(b.subrange(0, 4) =~= bytes_u32(v.flags));
    assert(b.subrange(4, 8) =~= bytes_u32(v.size));
    assert(b.subrange(8, 16) =~= bytes_u64(v.paddr));
    lemma_read_u32(b, 0, v.flags);
    lemma_read_u32(b, 4, v.size);
    lemma_read_u64(b, 8, v.paddr);
}

/// The key of entry `i`.
pub open spec fn omap_entry(n: NodeView, fks: u32, i: int) -> OmapKey {
    omap_key_of(n.key(i, fks)->Ok_0)
}

/// A leaf whose keys can all be read and stand in ascending order.
pub open spec fn omap_sorted(n: NodeView, fks: u32) -> bool {
    &&& forall|i: int|
        0 <= i < n.toc.len() ==> (#[trigger] n.key(i, fks)) is Ok && n.key(i, fks)->Ok_0.len() >= 16
    &&& forall|i: int, j: int|
        0 <= i < j < n.toc.len() ==> omap_before(
            #[trigger] omap_entry(n, fks, i),
            #[trigger] omap_entry(n, fks, j),
        )
}

proof fn lemma_newest(n: NodeView, fks: u32, oid: u64, i: int, best: Option<(int, u64)>)
    requires
        omap_sorted(n, fks),
        0 <= i <= n.toc.len(),
        best matches Some((b, x)) ==> 0 <= b < i && omap_entry(n, fks, b) == (OmapKey {
            oid,
            xid: x,
        }),
        forall|j: int|
            0 <= j < i && (#[trigger] omap_entry(n, fks, j)).oid == oid ==> (best matches Some(
                (_, x),
            ) && omap_entry(n, fks, j).xid <= x),
    ensures
        newest_entry(n, fks, oid, i, best) matches Ok(r) && match r {
            Some(b) => 0 <= b < n.toc.len() && omap_entry(n, fks, b).oid == oid && forall|j: int|
                0 <= j < n.toc.len() && (#[trigger] omap_entry(n, fks, j)).oid == oid
                    ==> omap_entry(n, fks, j).xid <= omap_entry(n, fks, b).xid,
            None => forall|j: int|
                0 <= j < n.toc.len() ==> (#[trigger] omap_entry(n, fks, j)).oid != oid,
        },
    decreases n.toc.len() - i,
{
    if i < n.toc.len() {
        assert(n.key(i, fks) is Ok);
        let k = omap_entry(n, fks, i);
        if k.oid > oid {
            assert forall|j: int| i <= j < n.toc.len() implies (#[trigger] omap_entry(
                n,
                fks,
                j,
            )).oid != oid by {
                if i < j {
                    assert(omap_before(omap_entry(n, fks, i), omap_entry(n, fks, j)));
                }
            }
        } else if k.oid == oid && !(best matches Some((_, x)) && x > k.xid) {
            lemma_newest(n, fks, oid, i + 1, Some((i, k.xid)));
        } else {
            lemma_newest(n, fks, oid, i + 1, best);
        }
    }
}

/// In a sorted leaf the entry that is picked for an OID has the highest
/// transaction id of all entries of that OID, and none is picked only when
/// there is none.
pub proof fn law_newest_entry_wins(n: NodeView, fks: u32, oid: u64)
    requires
        omap_sorted(n, fks),
    ensures
        newest_entry(n, fks, oid, 0, None) matches Ok(r) && match r {
            Some(b) => 0 <= b < n.toc.len() && omap_entry(n, fks, b).oid == oid && forall|j: int|
                0 <= j < n.toc.len() && (#[trigger] omap_entry(n, fks, j)).oid == oid
                    ==> omap_entry(n, fks, j).xid <= omap_entry(n, fks, b).xid,
            None => forall|j: int|
                0 <= j < n.toc.len() ==> (#[trigger] omap_entry(n, fks, j)).oid != oid,
        },
{
    lemma_newest(n, fks, oid, 0, None);
}

proof fn lemma_slot(n: NodeView, key: OmapKey, i: int)
    requires
        omap_sorted(n, OMAP_KEY_SIZE),
        0 <= i <= n.toc.len(),
        forall|j: int|
            0 <= j < i ==> omap_before(#[trigger] omap_entry(n, OMAP_KEY_SIZE, j), key),
    ensures
        match omap_slot(n, key, i) {
            Ok(s) => {
                &&& i <= s <= n.toc.len()
                &&& forall|j: int|
                    0 <= j < s ==> omap_before(#[trigger] omap_entry(n, OMAP_KEY_SIZE, j), key)
                &&& forall|j: int|
                    s <= j < n.toc.len() ==> omap_before(
                        key,
                        #[trigger] omap_entry(n, OMAP_KEY_SIZE, j),
                    )
            },
            Err(_) => exists|j: int|
                0 <= j < n.toc.len() && #[trigger] omap_entry(n, OMAP_KEY_SIZE, j) == key,
        },
    decreases n.toc.len() - i,
{
    if i < n.toc.len() {
        assert(n.key(i, OMAP_KEY_SIZE) is Ok);
        let k = omap_entry(n, OMAP_KEY_SIZE, i);
        if omap_before(k, key) {
            lemma_slot(n, key, i + 1);
        } else if k != key {
            assert forall|j: int| i <= j < n.toc.len() implies omap_before(
                key,
                #[trigger] omap_entry(n, OMAP_KEY_SIZE, j),
            ) by {
                if i < j {
                    assert(omap_before(
                        omap_entry(n, OMAP_KEY_SIZE, i),
                        omap_entry(n, OMAP_KEY_SIZE, j),
                    ));
                }
            }
        }
    }
}

/// In a sorted leaf a mapping goes between the keys below it and the keys
/// above it, and is refused only when its key is there already.
pub proof fn law_slot_keeps_order(n: NodeView, key: OmapKey)
    requires
        omap_sorted(n, OMAP_KEY_SIZE),
    ensures
        match omap_slot(n, key, 0) {
            Ok(s) => {
                &&& 0 <= s <= n.toc.len()
                &&& forall|j: int|
                    0 <= j < s ==> omap_before(#[trigger] omap_entry(n, OMAP_KEY_SIZE, j), key)
                &&& forall|j: int|
                    s <= j < n.toc.len() ==> omap_before(
                        key,
                        #[trigger] omap_entry(n, OMAP_KEY_SIZE, j),
                    )
            },
            Err(_) => exists|j: int|
                0 <= j < n.toc.len() && #[trigger] omap_entry(n, OMAP_KEY_SIZE, j) == key,
        },
{
    lemma_slot(n, key, 0);
}

} // verus!
