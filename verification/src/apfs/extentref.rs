//! Physical extent reference tree (`extentref`).
//!
//! The tree is physical (no OMAP), of fixed sizes, and keyed by the first
//! block of an extent. Only allocated extents have a record. The helpers work
//! on the leaf that holds, or would hold, a given address; the caller finds
//! the leaf and stages the changed bytes through a transaction.

use crate::apfs::btree::BTreeNode;
use crate::apfs::btree::node::NodeView;
use crate::apfs::btree::records::{
    law_delete_removes_record, law_entries_are_records, law_replace_updates_record, leaf_ok, records,
    values_apart,
};
use crate::apfs::btree::search::{btree_lookup_with_leaf, models, node_at, read_node, tree_lookup};
use crate::apfs::bytes::{
    bytes_i32, bytes_u64, copy_range, group_bytes_len, le_i32, le_u64, lemma_read_i32,
    lemma_read_u64, push_i32, push_u64, rd_i32, rd_u64,
};
use crate::apfs::device::ReadAt;
use crate::apfs::error::{bad_btree, internal, plain, ApfsError, Fault};
use crate::apfs::object::agrees;
use crate::apfs::omap::{index_view, resolver};
use crate::apfs::packed::{law_pack_unpack, packed, packed_kind, packed_number, KIND_UNIT};
use crate::apfs::text::{msg1, text1};
use std::cmp::Ordering;
use vstd::prelude::*;

verus! {

pub const J_OBJ_KIND_NEW: u8 = 0;

/// The kind stands in the four bits from here on.
pub const PEXT_KIND_SHIFT: u32 = 60;

/// The bits below the kind.
pub const PEXT_LEN_MASK: u64 = 0x0FFF_FFFF_FFFF_FFFF;

/// Wire size of a `PhysExtKey` record on disk.
pub const PHYS_EXT_KEY_SIZE: u32 = 8;

/// Wire size of a `PhysExtVal` record on disk.
pub const PHYS_EXT_VAL_SIZE: u32 = 20;

#[derive(Debug, Clone, Copy, PartialEq, Eq, Structural)]
pub struct PhysExtKey {
    pub paddr: u64,
}

#[derive(Debug, Clone, Copy, PartialEq, Eq, Structural)]
pub struct PhysExtVal {
    pub length: u64,
    pub kind: u8,
    pub owning_obj_id: u64,
    pub refcnt: i32,
}

/// Packing is masking and shifting.
pub proof fn law_pack_is_mask_and_shift(number: u64, kind: u64)
    ensures
        packed(number, kind as int) == (number & PEXT_LEN_MASK) | (kind << PEXT_KIND_SHIFT),
{
    assert((number & 0x0FFF_FFFF_FFFF_FFFFu64) | (kind << 60u32) == number
        % 0x1000_0000_0000_0000u64 + (kind % 16) * 0x1000_0000_0000_0000u64) by (bit_vector);
}

/// A key read from a buffer.
pub open spec fn ext_key_outcome(b: Seq<u8>) -> Result<PhysExtKey, Fault> {
    if b.len() < 8 {
        Err(Fault::BadBTree("phys_ext key too short"@))
    } else {
        Ok(PhysExtKey { paddr: packed_number(le_u64(b, 0)) })
    }
}

/// A value read from a buffer.
pub open spec fn ext_val_outcome(b: Seq<u8>) -> Result<PhysExtVal, Fault> {
    if b.len() < 20 {
        Err(Fault::BadBTree("phys_ext val too short"@))
    } else {
        Ok(
            PhysExtVal {
                length: packed_number(le_u64(b, 0)),
                kind: packed_kind(le_u64(b, 0)),
                owning_obj_id: le_u64(b, 8),
                refcnt: le_i32(b, 16),
            },
        )
    }
}

/// The 8 bytes of a key.
pub open spec fn ext_key_bytes(k: PhysExtKey, kind: u64) -> Seq<u8> {
    bytes_u64(packed(k.paddr, kind as int))
}

/// The 20 bytes of a value.
pub open spec fn ext_val_bytes(v: PhysExtVal) -> Seq<u8> {
    bytes_u64(packed(v.length, v.kind as int)) + bytes_u64(v.owning_obj_id) + bytes_i32(v.refcnt)
}

impl PhysExtKey {
    pub const SIZE: usize = 8;

    pub fn parse(buf: &[u8]) -> (r: Result<Self, ApfsError>)
        ensures
            plain(r) == ext_key_outcome(buf@),
    {
        if buf.len() < 8 {
            return Err(bad_btree("phys_ext key too short"));
        }
        Ok(PhysExtKey { paddr: rd_u64(buf, 0) % KIND_UNIT })
    }

    pub fn to_bytes(self, kind: u64) -> (a: [u8; 8])
        ensures
            a@ == ext_key_bytes(self, kind),
    {
        broadcast use group_bytes_len;

        let mut v: Vec<u8> = Vec::new();
        push_u64(&mut v, self.paddr % KIND_UNIT + (kind % 16) * KIND_UNIT);
        assert(v@ =~= ext_key_bytes(self, kind));
        let a = [v[0], v[1], v[2], v[3], v[4], v[5], v[6], v[7]];
        assert(a@ =~= v@);
        a
    }
}

impl PhysExtVal {
    pub const SIZE: usize = 20;

    pub fn parse(buf: &[u8]) -> (r: Result<Self, ApfsError>)
        ensures
            plain(r) == ext_val_outcome(buf@),
    {
        if buf.len() < 20 {
            return Err(bad_btree("phys_ext val too short"));
        }
        let w: u64 = rd_u64(buf, 0);
        Ok(
            PhysExtVal {
                length: w % KIND_UNIT,
                kind: (w / KIND_UNIT) as u8,
                owning_obj_id: rd_u64(buf, 8),
                refcnt: rd_i32(buf, 16),
            },
        )
    }

    pub fn to_bytes(&self) -> (a: [u8; 20])
        ensures
            a@ == ext_val_bytes(*self),
    {
        broadcast use group_bytes_len;

        let mut v: Vec<u8> = Vec::new();
        push_u64(&mut v, self.length % KIND_UNIT + (self.kind as u64 % 16) * KIND_UNIT);
        push_u64(&mut v, self.owning_obj_id);
        push_i32(&mut v, self.refcnt);
        assert(v@ =~= ext_val_bytes(*self));
        let a = [
            v[0],
            v[1],
            v[2],
            v[3],
            v[4],
            v[5],
            v[6],
            v[7],
            v[8],
            v[9],
            v[10],
            v[11],
            v[12],
            v[13],
            v[14],
            v[15],
            v[16],
            v[17],
            v[18],
            v[19],
        ];
        assert(a@ =~= v@);
        a
    }

    /// Count one more reference.
    pub fn inc(&mut self) -> (r: Result<i32, ApfsError>)
        ensures
            match inc_refcnt(*old(self)) {
                Ok(v) => *final(self) == v && plain(r) == Ok::<i32, Fault>(v.refcnt),
                Err(e) => *final(self) == *old(self) && plain(r) == Err::<i32, Fault>(e),
            },
    {
        if self.refcnt == i32::MAX {
            return Err(internal("phys_ext refcnt overflow"));
        }
        self.refcnt = self.refcnt + 1;
        Ok(self.refcnt)
    }

    /// Count one reference less.
    pub fn dec(&mut self) -> (r: Result<i32, ApfsError>)
        ensures
            match dec_refcnt(*old(self)) {
                Ok(v) => *final(self) == v && plain(r) == Ok::<i32, Fault>(v.refcnt),
                Err(e) => *final(self) == *old(self) && plain(r) == Err::<i32, Fault>(e),
            },
    {
        if self.refcnt <= 0 {
            return Err(internal("phys_ext refcnt underflow"));
        }
        self.refcnt = self.refcnt - 1;
        Ok(self.refcnt)
    }
}

/// The value with one more reference.
pub open spec fn inc_refcnt(v: PhysExtVal) -> Result<PhysExtVal, Fault> {
    if v.refcnt == i32::MAX {
        Err(Fault::Internal("phys_ext refcnt overflow"@))
    } else {
        Ok(PhysExtVal { refcnt: (v.refcnt + 1) as i32, ..v })
    }
}

/// The value with one reference less.
pub open spec fn dec_refcnt(v: PhysExtVal) -> Result<PhysExtVal, Fault> {
    if v.refcnt <= 0 {
        Err(Fault::Internal("phys_ext refcnt underflow"@))
    } else {
        Ok(PhysExtVal { refcnt: (v.refcnt - 1) as i32, ..v })
    }
}

/// Dropping a reference that was just taken gives the value back.
pub proof fn law_inc_then_dec(v: PhysExtVal)
    requires
        0 <= v.refcnt < i32::MAX,
    ensures
        inc_refcnt(v) matches Ok(w) && dec_refcnt(w) == Ok::<PhysExtVal, Fault>(v),
{
}

/// Parsing a key gives back its address, whatever the kind.
pub proof fn law_ext_key_roundtrip(k: PhysExtKey, kind: u64)
    requires
        k.paddr < KIND_UNIT,
    ensures
        ext_key_outcome(ext_key_bytes(k, kind)) == Ok::<PhysExtKey, Fault>(k),
{
    broadcast use group_bytes_len;

    let b = ext_key_bytes(k, kind);
    assert(b.subrange(0, 8) =~= b);
    lemma_read_u64(b, 0, packed(k.paddr, kind as int));
}

/// Parsing a value gives back what was written.
pub proof fn law_ext_val_roundtrip(v: PhysExtVal)
    requires
        v.length < KIND_UNIT,
        v.kind < 16,
    ensures
        ext_val_outcome(ext_val_bytes(v)) == Ok::<PhysExtVal, Fault>(v),
{
    broadcast use group_bytes_len;

    let b = ext_val_bytes(v);
    let w = packed(v.length, v.kind as int);
    law_pack_unpack(v.length, v.kind as int);
    assert(b.subrange(0, 8) =~= bytes_u64(w));
    assert(b.subrange(8, 16) =~= bytes_u64(v.owning_obj_id));
    assert(b.subrange(16, 20) =~= bytes_i32(v.refcnt));
    lemma_read_u64(b, 0, w);
    lemma_read_u64(b, 8, v.owning_obj_id);
    lemma_read_i32(b, 16, v.refcnt);
}

/// Where a key stands relative to the record of `paddr`. Keys that are too
/// short count as lying below.
pub open spec fn ext_rank(k: Seq<u8>, paddr: u64) -> int {
    if k.len() < 8 { -1 } else { packed_number(le_u64(k, 0)) - paddr }
}

/// The search for the record of `paddr`.
pub open spec fn ext_search(paddr: u64) -> spec_fn(Seq<u8>) -> int {
    |k: Seq<u8>| ext_rank(k, paddr)
}

/// The record of `paddr` and the address of its leaf.
pub open spec fn extentref_outcome(disk: Seq<u8>, root: u64, block_size: u32, paddr: u64) -> Result<
    Option<(PhysExtVal, u64)>,
    Fault,
> {
    match tree_lookup(
        disk,
        root,
        block_size,
        PHYS_EXT_KEY_SIZE,
        PHYS_EXT_VAL_SIZE,
        ext_search(paddr),
        resolver(disk, block_size, None),
    ) {
        Err(e) => Err(e),
        Ok(None) => Ok(None),
        Ok(Some((v, leaf))) => match ext_val_outcome(v) {
            Err(e) => Err(e),
            Ok(val) => Ok(Some((val, leaf))),
        },
    }
}

/// Look up the extentref record for `paddr` and return the value plus the
/// address of the leaf node that holds it.
pub fn extentref_lookup<D: ReadAt>(dev: &D, extentref_root: u64, block_size: u32, paddr: u64) -> (r:
    Result<Option<(PhysExtVal, u64)>, ApfsError>)
    ensures
        agrees(
            plain(r),
            extentref_outcome(dev.bytes(), extentref_root, block_size, paddr),
            dev.reliable(),
        ),
{
    let order = |k: &[u8]| -> (o: Ordering)
        ensures
            match o {
                Ordering::Less => ext_rank(k@, paddr) < 0,
                Ordering::Equal => ext_rank(k@, paddr) == 0,
                Ordering::Greater => ext_rank(k@, paddr) > 0,
            },
        {
            if k.len() < 8 {
                return Ordering::Less;
            }
            let at: u64 = rd_u64(k, 0) % KIND_UNIT;
            if at < paddr {
                Ordering::Less
            } else if at == paddr {
                Ordering::Equal
            } else {
                Ordering::Greater
            }
        };
    assert(models(order, ext_search(paddr)));
    match btree_lookup_with_leaf(
        dev,
        extentref_root,
        block_size,
        PHYS_EXT_KEY_SIZE,
        PHYS_EXT_VAL_SIZE,
        &order,
        None,
    )? {
        Some((bytes, leaf)) => {
            let val = PhysExtVal::parse(bytes.as_slice())?;
            Ok(Some((val, leaf)))
        },
        None => Ok(None),
    }
}

/// The first entry of a leaf, from `i` on, that is the record of `paddr`.
pub open spec fn record_index(n: NodeView, paddr: u64, i: int) -> Result<Option<int>, Fault>
    decreases n.toc.len() - i,
{
    if i >= n.toc.len() {
        Ok(None)
    } else {
        match n.key(i, PHYS_EXT_KEY_SIZE) {
            Err(e) => Err(e),
            Ok(b) => match ext_key_outcome(b) {
                Err(e) => Err(e),
                Ok(k) => if k.paddr == paddr {
                    Ok(Some(i))
                } else {
                    record_index(n, paddr, i + 1)
                },
            },
        }
    }
}

/// The record of `paddr` in a leaf, with its index.
pub open spec fn record_in_node(n: NodeView, paddr: u64) -> Result<(int, PhysExtVal), Fault> {
    if !n.is_leaf() {
        Err(Fault::BadBTree("extentref helper called on non-leaf"@))
    } else {
        match record_index(n, paddr, 0) {
            Err(e) => Err(e),
            Ok(None) => Err(Fault::NotFound(msg1("extentref paddr "@, paddr as nat, ""@))),
            Ok(Some(i)) => match n.value(i, PHYS_EXT_VAL_SIZE) {
                Err(e) => Err(e),
                Ok(b) => match ext_val_outcome(b) {
                    Err(e) => Err(e),
                    Ok(v) => Ok((i, v)),
                },
            },
        }
    }
}

/// The outcome of counting one more reference inside a leaf, and the leaf
/// afterwards.
pub open spec fn inc_in_node(n: NodeView, paddr: u64) -> (Result<i32, Fault>, NodeView) {
    match record_in_node(n, paddr) {
        Err(e) => (Err(e), n),
        Ok((i, v)) => match inc_refcnt(v) {
            Err(e) => (Err(e), n),
            Ok(w) => match n.replace(i, ext_val_bytes(w), PHYS_EXT_VAL_SIZE) {
                (Err(e), m) => (Err(e), m),
                (Ok(_), m) => (Ok(w.refcnt), m),
            },
        },
    }
}

/// The outcome of counting one reference less inside a leaf, and the leaf
/// afterwards. A record without references is taken out.
pub open spec fn dec_in_node(n: NodeView, paddr: u64) -> (Result<(i32, bool), Fault>, NodeView) {
    match record_in_node(n, paddr) {
        Err(e) => (Err(e), n),
        Ok((i, v)) => match dec_refcnt(v) {
            Err(e) => (Err(e), n),
            Ok(w) => if w.refcnt == 0 {
                match n.delete(i) {
                    (Err(e), m) => (Err(e), m),
                    (Ok(_), m) => (Ok((0, true)), m),
                }
            } else {
                match n.replace(i, ext_val_bytes(w), PHYS_EXT_VAL_SIZE) {
                    (Err(e), m) => (Err(e), m),
                    (Ok(_), m) => (Ok((w.refcnt, false)), m),
                }
            },
        },
    }
}

fn find_record(node: &BTreeNode, paddr: u64) -> (r: Result<(usize, PhysExtVal), ApfsError>)
    ensures
        match r {
            Ok((i, v)) => record_in_node(node@, paddr) == Ok::<(int, PhysExtVal), Fault>(
                (i as int, v),
            ),
            Err(e) => record_in_node(node@, paddr) == Err::<(int, PhysExtVal), Fault>(e@),
        },
{
    if !node.is_leaf() {
        return Err(bad_btree("extentref helper called on non-leaf"));
    }
    let mut i: usize = 0;
    let count: usize = node.nkeys();
    while i < count
        invariant
            i <= count,
            count == node@.toc.len(),
            node@.is_leaf(),
            record_index(node@, paddr, 0) == record_index(node@, paddr, i as int),
        decreases count - i,
    {
        let kb = node.key_at(i, PHYS_EXT_KEY_SIZE)?;
        let key = PhysExtKey::parse(kb)?;
        if key.paddr == paddr {
            let vb = node.value_at(i, PHYS_EXT_VAL_SIZE)?;
            let val = PhysExtVal::parse(vb)?;
            return Ok((i, val));
        }
        i += 1;
    }
    Err(ApfsError::NotFound(text1("extentref paddr ", paddr, "")))
}

/// In-place increment of an existing record's refcount inside `node`. Returns
/// the new refcount. The caller must serialise the node and stage the block.
pub fn extentref_inc_in_node(node: &mut BTreeNode, paddr: u64) -> (r: Result<i32, ApfsError>)
    ensures
        (plain(r), final(node)@) == inc_in_node(old(node)@, paddr),
{
    let (idx, found) = find_record(node, paddr)?;
    let mut val = found;
    let new: i32 = val.inc()?;
    node.replace_value(idx, &val.to_bytes(), PHYS_EXT_VAL_SIZE)?;
    Ok(new)
}

/// In-place decrement of an existing record's refcount inside `node`. Returns
/// `(new_refcount, removed)`. When `removed` is `true` the record was deleted
/// because the count fell to zero; the caller is responsible for freeing the
/// underlying blocks via the space manager.
pub fn extentref_dec_in_node(node: &mut BTreeNode, paddr: u64) -> (r: Result<
    (i32, bool),
    ApfsError,
>)
    ensures
        (plain(r), final(node)@) == dec_in_node(old(node)@, paddr),
{
    let (idx, found) = find_record(node, paddr)?;
    let mut val = found;
    let new: i32 = val.dec()?;
    if new == 0 {
        node.delete_leaf(idx)?;
        Ok((0, true))
    } else {
        node.replace_value(idx, &val.to_bytes(), PHYS_EXT_VAL_SIZE)?;
        Ok((new, false))
    }
}

/// The position of a new record among the entries from `i` on.
pub open spec fn ext_slot(n: NodeView, paddr: u64, i: int) -> Result<int, Fault>
    decreases n.toc.len() - i,
{
    if i >= n.toc.len() {
        Ok(i)
    } else {
        match n.key(i, PHYS_EXT_KEY_SIZE) {
            Err(e) => Err(e),
            Ok(b) => match ext_key_outcome(b) {
                Err(e) => Err(e),
                Ok(k) => if k.paddr < paddr {
                    ext_slot(n, paddr, i + 1)
                } else if k.paddr == paddr {
                    Err(
                        Fault::Internal(
                            msg1("extentref_insert_in_node: duplicate paddr "@, paddr as nat, ""@),
                        ),
                    )
                } else {
                    Ok(i)
                },
            },
        }
    }
}

/// The outcome of inserting a record into a leaf, and the leaf afterwards.
pub open spec fn insert_in_node(n: NodeView, paddr: u64, val: PhysExtVal, kind: u64) -> (
    Result<int, Fault>,
    NodeView,
) {
    if !n.is_leaf() {
        (Err(Fault::BadBTree("extentref_insert_in_node: not a leaf"@)), n)
    } else {
        match ext_slot(n, paddr, 0) {
            Err(e) => (Err(e), n),
            Ok(i) => match n.insert_fixed(
                i,
                ext_key_bytes(PhysExtKey { paddr }, kind),
                ext_val_bytes(val),
                PHYS_EXT_KEY_SIZE,
                PHYS_EXT_VAL_SIZE,
            ) {
                (Err(e), m) => (Err(e), m),
                (Ok(_), m) => (Ok(i), m),
            },
        }
    }
}

fn find_ext_slot(node: &BTreeNode, paddr: u64) -> (r: Result<usize, ApfsError>)
    ensures
        index_view(r) == ext_slot(node@, paddr, 0),
{
    let mut i: usize = 0;
    let count: usize = node.nkeys();
    while i < count
        invariant
            i <= count,
            count == node@.toc.len(),
            ext_slot(node@, paddr, 0) == ext_slot(node@, paddr, i as int),
        decreases count - i,
    {
        let kb = node.key_at(i, PHYS_EXT_KEY_SIZE)?;
        let k = PhysExtKey::parse(kb)?;
        if k.paddr == paddr {
            return Err(
                ApfsError::Internal(
                    text1("extentref_insert_in_node: duplicate paddr ", paddr, ""),
                ),
            );
        }
        if k.paddr > paddr {
            return Ok(i);
        }
        i += 1;
    }
    Ok(i)
}

/// Insert a fresh extentref record into the leaf `node` at the correct sorted
/// position. `kind` is normally `J_OBJ_KIND_NEW`. Returns the insertion index.
pub fn extentref_insert_in_node(node: &mut BTreeNode, paddr: u64, val: PhysExtVal, kind: u64) -> (r:
    Result<usize, ApfsError>)
    ensures
        (index_view(r), final(node)@) == insert_in_node(old(node)@, paddr, val, kind),
{
    if !node.is_leaf() {
        return Err(bad_btree("extentref_insert_in_node: not a leaf"));
    }
    let idx: usize = find_ext_slot(node, paddr)?;
    let key = PhysExtKey { paddr };
    node.insert_leaf_fixed(
        idx,
        &key.to_bytes(kind),
        &val.to_bytes(),
        PHYS_EXT_KEY_SIZE,
        PHYS_EXT_VAL_SIZE,
    )?;
    Ok(idx)
}

/// Whether `r` is what becomes of a leaf whose change by a closure left the
/// node `after` and returned `res`.
pub open spec fn leaf_rewritten<T>(
    after: NodeView,
    res: Result<T, ApfsError>,
    r: Result<(Vec<u8>, T), ApfsError>,
) -> bool {
    match res {
        Err(e) => r == Err::<(Vec<u8>, T), ApfsError>(e),
        Ok(out) => match after.serialize().0 {
            Err(e) => r matches Err(x) && x@ == e,
            Ok(b) => r matches Ok((bytes, o)) && bytes@ == b && o == out,
        },
    }
}

/// Read the leaf at `leaf_paddr`, change it by `f`, and return the new block
/// bytes with what `f` returned. The caller stages the bytes through a
/// transaction.
pub fn extentref_modify_leaf<D: ReadAt, F, T>(dev: &D, leaf_paddr: u64, block_size: u32, f: F) -> (r:
    Result<(Vec<u8>, T), ApfsError>)
    where F: FnOnce(&mut BTreeNode) -> Result<T, ApfsError>
    requires
        forall|n: &mut BTreeNode| #[trigger] call_requires(f, (n,)),
    ensures
        (!dev.reliable() && r is Err) || match node_at(dev.bytes(), leaf_paddr, block_size) {
            Err(e) => r matches Err(x) && x@ == e,
            Ok(node) => exists|n: &mut BTreeNode, res: Result<T, ApfsError>| #[trigger]
                call_ensures(f, (n,), res) && (*n)@ == node && leaf_rewritten(
                    (*final(n))@,
                    res,
                    r,
                ),
        },
{
    let mut node = read_node(dev, leaf_paddr, block_size)?;
    let ghost before = node@;
    let res = f(&mut node);
    assert(exists|n: &mut BTreeNode| #[trigger]
        call_ensures(f, (n,), res) && (*n)@ == before && (*final(n))@ == node@);
    let out = match res {
        Ok(out) => out,
        Err(e) => {
            return Err(e);
        },
    };
    let bytes = node.serialize()?;
    let v = copy_range(bytes, 0, bytes.len());
    assert(v@ =~= bytes@);
    Ok((v, out))
}

proof fn lemma_record_at(n: NodeView, paddr: u64, from: int)
    requires
        0 <= from,
    ensures
        record_index(n, paddr, from) matches Ok(Some(i)) ==> from <= i < n.toc.len(),
    decreases n.toc.len() - from,
{
    if from < n.toc.len() {
        lemma_record_at(n, paddr, from + 1);
    }
}

proof fn lemma_same_keys(n: NodeView, m: NodeView, paddr: u64, from: int)
    requires
        0 <= from,
        n.toc.len() == m.toc.len(),
        forall|k: int|
            0 <= k < n.toc.len() ==> #[trigger] n.key(k, PHYS_EXT_KEY_SIZE) == m.key(
                k,
                PHYS_EXT_KEY_SIZE,
            ),
    ensures
        record_index(n, paddr, from) == record_index(m, paddr, from),
    decreases n.toc.len() - from,
{
    if from < n.toc.len() {
        assert(n.key(from, PHYS_EXT_KEY_SIZE) == m.key(from, PHYS_EXT_KEY_SIZE));
        lemma_same_keys(n, m, paddr, from + 1);
    }
}

/// The record of a block is given another number of references.
proof fn lemma_recounted(n: NodeView, paddr: u64, refcnt: i32)
    requires
        leaf_ok(n, PHYS_EXT_KEY_SIZE, PHYS_EXT_VAL_SIZE),
        n.fixed_kv(),
        values_apart(n, PHYS_EXT_VAL_SIZE),
        record_in_node(n, paddr) is Ok,
    ensures
        ({
            let (i, v) = record_in_node(n, paddr)->Ok_0;
            let w = PhysExtVal { refcnt, ..v };
            let (r, m) = n.replace(i, ext_val_bytes(w), PHYS_EXT_VAL_SIZE);
            &&& 0 <= i < n.toc.len()
            &&& r is Ok
            &&& record_in_node(m, paddr) == Ok::<(int, PhysExtVal), Fault>((i, w))
        }),
{
    broadcast use group_bytes_len;

    let (i, v) = record_in_node(n, paddr)->Ok_0;
    lemma_record_at(n, paddr, 0);
    let w = PhysExtVal { refcnt, ..v };
    let val = ext_val_bytes(w);
    assert(val.len() == 20);
    law_replace_updates_record(n, i, val, PHYS_EXT_KEY_SIZE, PHYS_EXT_VAL_SIZE);
    let m = n.replace(i, val, PHYS_EXT_VAL_SIZE).1;
    assert forall|k: int| 0 <= k < n.toc.len() implies #[trigger] n.key(k, PHYS_EXT_KEY_SIZE)
        == m.key(k, PHYS_EXT_KEY_SIZE) by {
        law_entries_are_records(n, k, PHYS_EXT_KEY_SIZE, PHYS_EXT_VAL_SIZE);
        law_entries_are_records(m, k, PHYS_EXT_KEY_SIZE, PHYS_EXT_VAL_SIZE);
    }
    lemma_same_keys(n, m, paddr, 0);
    law_entries_are_records(m, i, PHYS_EXT_KEY_SIZE, PHYS_EXT_VAL_SIZE);
    law_ext_val_roundtrip(w);
}

/// Taking a reference to an extent counts it: the record has one more
/// afterwards, and this is the number that is told. Nothing else of it changes.
pub proof fn law_reference_is_counted(n: NodeView, paddr: u64)
    requires
        leaf_ok(n, PHYS_EXT_KEY_SIZE, PHYS_EXT_VAL_SIZE),
        n.fixed_kv(),
        values_apart(n, PHYS_EXT_VAL_SIZE),
        record_in_node(n, paddr) matches Ok((_, v)) && v.refcnt < i32::MAX,
    ensures
        ({
            let (i, v) = record_in_node(n, paddr)->Ok_0;
            let (r, m) = inc_in_node(n, paddr);
            &&& r == Ok::<i32, Fault>((v.refcnt + 1) as i32)
            &&& record_in_node(m, paddr) == Ok::<(int, PhysExtVal), Fault>(
                (i, PhysExtVal { refcnt: (v.refcnt + 1) as i32, ..v }),
            )
        }),
{
    let (i, v) = record_in_node(n, paddr)->Ok_0;
    lemma_recounted(n, paddr, (v.refcnt + 1) as i32);
}

/// Giving up a reference to an extent counts it off. The last one takes the
/// record away, and this is told; there is none to give up where none is held.
pub proof fn law_reference_is_counted_off(n: NodeView, paddr: u64)
    requires
        leaf_ok(n, PHYS_EXT_KEY_SIZE, PHYS_EXT_VAL_SIZE),
        n.fixed_kv(),
        values_apart(n, PHYS_EXT_VAL_SIZE),
        record_in_node(n, paddr) is Ok,
    ensures
        ({
            let (i, v) = record_in_node(n, paddr)->Ok_0;
            let (r, m) = dec_in_node(n, paddr);
            &&& v.refcnt <= 0 ==> r is Err && m == n
            &&& v.refcnt == 1 ==> r == Ok::<(i32, bool), Fault>((0, true)) && records(
                m,
                PHYS_EXT_KEY_SIZE,
                PHYS_EXT_VAL_SIZE,
            ) == records(n, PHYS_EXT_KEY_SIZE, PHYS_EXT_VAL_SIZE).remove(i)
            &&& v.refcnt > 1 ==> r == Ok::<(i32, bool), Fault>(((v.refcnt - 1) as i32, false))
                && record_in_node(m, paddr) == Ok::<(int, PhysExtVal), Fault>(
                (i, PhysExtVal { refcnt: (v.refcnt - 1) as i32, ..v }),
            )
        }),
{
    let (i, v) = record_in_node(n, paddr)->Ok_0;
    lemma_record_at(n, paddr, 0);
    if v.refcnt == 1 {
        law_delete_removes_record(n, i, PHYS_EXT_KEY_SIZE, PHYS_EXT_VAL_SIZE);
    } else if v.refcnt > 1 {
        lemma_recounted(n, paddr, (v.refcnt - 1) as i32);
    }
}

/// A new record goes behind those of lower blocks, and in front of the first
/// one of a higher block. A block that has a record gets no other.
pub proof fn law_reference_slot(n: NodeView, paddr: u64, from: int)
    requires
        0 <= from <= n.toc.len(),
        forall|k: int|
            0 <= k < n.toc.len() ==> (#[trigger] n.key(k, PHYS_EXT_KEY_SIZE) matches Ok(b)
                && b.len() >= 8),
    ensures
        match ext_slot(n, paddr, from) {
            Ok(s) => {
                &&& from <= s <= n.toc.len()
                &&& forall|k: int|
                    from <= k < s ==> le_u64((#[trigger] n.key(k, PHYS_EXT_KEY_SIZE))->Ok_0, 0)
                        % 0x1000_0000_0000_0000 < paddr
                &&& s < n.toc.len() ==> le_u64(n.key(s, PHYS_EXT_KEY_SIZE)->Ok_0, 0)
                    % 0x1000_0000_0000_0000 > paddr
            },
            Err(_) => exists|k: int|
                from <= k < n.toc.len() && le_u64(
                    (#[trigger] n.key(k, PHYS_EXT_KEY_SIZE))->Ok_0,
                    0,
                ) % 0x1000_0000_0000_0000 == paddr,
        },
    decreases n.toc.len() - from,
{
    if from < n.toc.len() {
        assert(n.key(from, PHYS_EXT_KEY_SIZE) is Ok);
        law_reference_slot(n, paddr, from + 1);
    }
}

} // verus!
