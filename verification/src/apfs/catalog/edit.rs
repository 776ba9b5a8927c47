//! Changes to catalog records inside one leaf.

use crate::apfs::btree::BTreeNode;
use crate::apfs::btree::node::NodeView;
use crate::apfs::bytes::{
    bytes_u32, bytes_u64, copy_range, group_bytes_len, le_u16, lemma_read_u64, push_u32, push_u64,
    put_bytes, splice,
};
use crate::apfs::catalog::order::{key_order, key_sign, law_key_order_chains, law_key_order_flips};
use crate::apfs::catalog::records::{
    build_inode_value, decode_catalog_key, decode_drec_name, drec_bytes, drec_key_outcome,
    drec_name_outcome, dstream_among, dstream_pos, encode_drec_hashed_key, extent_bytes,
    extent_with, inode_bytes, inode_of, inode_outcome, inode_value, key_head, key_outcome,
    law_inode_roundtrip, locate_dstream, padded, push_key_head, DrecVal, FileExtentVal, InodeVal,
    JDstream, EXTENT_LENGTH_LIMIT, J_TYPE_DSTREAM_ID, J_TYPE_FILE_EXTENT, J_TYPE_INODE,
};
use crate::apfs::error::{bad_btree, outcome, ApfsError, Fault};
use crate::apfs::omap::index_view;
use crate::apfs::text::{decimal_signed, decimal_signed_string, msg1, msg_str, text1, text_str};
use crate::apfs::utf8::same_text;
use vstd::slice::slice_subrange;
use vstd::prelude::*;

verus! {

/// The first inode record of `oid`, from entry `i` on. A key that cannot be
/// read ends the search.
pub open spec fn inode_entry(n: NodeView, oid: u64, i: int) -> Result<Option<int>, Fault>
    decreases n.toc.len() - i,
{
    if i >= n.toc.len() {
        Ok(None)
    } else {
        match n.key(i, 0) {
            Err(e) => Err(e),
            Ok(k) => match key_outcome(k) {
                Err(e) => Err(e),
                Ok((k_oid, k_type)) => if k_oid == oid && k_type == J_TYPE_INODE {
                    Ok(Some(i))
                } else {
                    inode_entry(n, oid, i + 1)
                },
            },
        }
    }
}

/// What is said when a leaf does not hold the inode.
pub open spec fn no_inode(oid: u64) -> Fault {
    Fault::NotFound(msg1("inode "@, oid as nat, " not in node"@))
}

/// The outcome of changing the value of an inode by `f`, and the leaf
/// afterwards.
pub open spec fn edit_inode(
    n: NodeView,
    oid: u64,
    not_a_leaf: Seq<char>,
    f: spec_fn(Seq<u8>) -> Result<Seq<u8>, Fault>,
) -> (Result<int, Fault>, NodeView) {
    if !n.is_leaf() {
        (Err(Fault::BadBTree(not_a_leaf)), n)
    } else {
        match inode_entry(n, oid, 0) {
            Err(e) => (Err(e), n),
            Ok(None) => (Err(no_inode(oid)), n),
            Ok(Some(i)) => match n.value(i, 0) {
                Err(e) => (Err(e), n),
                Ok(v) => match f(v) {
                    Err(e) => (Err(e), n),
                    Ok(w) => match n.replace(i, w, 0) {
                        (Err(e), m) => (Err(e), m),
                        (Ok(_), m) => (Ok(i), m),
                    },
                },
            },
        }
    }
}

fn find_inode(node: &BTreeNode, oid: u64) -> (r: Result<usize, ApfsError>)
    ensures
        match r {
            Ok(i) => inode_entry(node@, oid, 0) == Ok::<Option<int>, Fault>(Some(i as int)) && i
                < node@.toc.len(),
            Err(e) => match inode_entry(node@, oid, 0) {
                Ok(None) => e@ == no_inode(oid),
                Ok(Some(_)) => false,
                Err(x) => e@ == x,
            },
        },
{
    let mut i: usize = 0;
    let count: usize = node.nkeys();
    while i < count
        invariant
            i <= count,
            count == node@.toc.len(),
            inode_entry(node@, oid, 0) == inode_entry(node@, oid, i as int),
        decreases count - i,
    {
        let key = node.key_at(i, 0)?;
        let (k_oid, k_type) = decode_catalog_key(key)?;
        if k_oid == oid && k_type == J_TYPE_INODE {
            return Ok(i);
        }
        i += 1;
    }
    Err(ApfsError::NotFound(text1("inode ", oid, " not in node")))
}

fn inode_at(node: &BTreeNode, i: usize) -> (r: Result<Vec<u8>, ApfsError>)
    ensures
        outcome(r) == node@.value(i as int, 0),
{
    let v = node.value_at(i, 0)?;
    let copy = copy_range(v, 0, v.len());
    assert(copy@ =~= v@);
    Ok(copy)
}

/// What is said of an inode value that is too short to be changed.
pub open spec fn truncated_inode(len: nat) -> Fault {
    Fault::BadCatalog(msg1("inode value truncated: "@, len, " bytes"@))
}

fn truncated(len: usize) -> (e: ApfsError)
    ensures
        e@ == truncated_inode(len as nat),
{
    ApfsError::BadCatalog(text1("inode value truncated: ", len as u64, " bytes"))
}

/// The inode with the given times.
pub open spec fn with_times(
    i: InodeVal,
    create_time: Option<i64>,
    modify_time: Option<i64>,
    change_time: Option<i64>,
    access_time: Option<i64>,
) -> InodeVal {
    InodeVal {
        create_time: match create_time {
            Some(t) => t,
            None => i.create_time,
        },
        modify_time: match modify_time {
            Some(t) => t,
            None => i.modify_time,
        },
        change_time: match change_time {
            Some(t) => t,
            None => i.change_time,
        },
        access_time: match access_time {
            Some(t) => t,
            None => i.access_time,
        },
        ..i
    }
}

/// An inode value with another fixed part; the extended fields stay.
pub open spec fn with_fixed(v: Seq<u8>, i: InodeVal) -> Seq<u8> {
    inode_bytes(i) + v.subrange(92, v.len() as int)
}

/// The change of an inode's times.
pub open spec fn times_edit(
    create_time: Option<i64>,
    modify_time: Option<i64>,
    change_time: Option<i64>,
    access_time: Option<i64>,
) -> spec_fn(Seq<u8>) -> Result<Seq<u8>, Fault> {
    |v: Seq<u8>|
        if v.len() < 92 {
            Err(truncated_inode(v.len()))
        } else {
            Ok(
                with_fixed(
                    v,
                    with_times(inode_of(v), create_time, modify_time, change_time, access_time),
                ),
            )
        }
}

fn rebuild(val: &Vec<u8>, inode: &InodeVal) -> (r: Result<Vec<u8>, ApfsError>)
    requires
        val.len() >= 92,
    ensures
        outcome(r) == Ok::<Seq<u8>, Fault>(with_fixed(val@, *inode)),
{
    inode.serialize_with_xfields(slice_subrange(val.as_slice(), 92, val.len()))
}

/// Overwrite timestamp fields in the `J_TYPE_INODE` record for `oid` inside
/// `node`. `None` arguments are left unchanged; extended fields are preserved.
/// Returns the entry index.
pub fn set_inode_times_in_node(
    node: &mut BTreeNode,
    oid: u64,
    create_time: Option<i64>,
    modify_time: Option<i64>,
    change_time: Option<i64>,
    access_time: Option<i64>,
) -> (r: Result<usize, ApfsError>)
    ensures
        (index_view(r), final(node)@) == edit_inode(
            old(node)@,
            oid,
            "set_inode_times_in_node: target is not a leaf"@,
            times_edit(create_time, modify_time, change_time, access_time),
        ),
{
    if !node.is_leaf() {
        return Err(bad_btree("set_inode_times_in_node: target is not a leaf"));
    }
    let i: usize = find_inode(node, oid)?;
    let val = inode_at(node, i)?;
    if val.len() < 92 {
        return Err(truncated(val.len()));
    }
    let mut inode = InodeVal::parse(val.as_slice())?;
    if let Some(t) = create_time {
        inode.create_time = t;
    }
    if let Some(t) = modify_time {
        inode.modify_time = t;
    }
    if let Some(t) = change_time {
        inode.change_time = t;
    }
    if let Some(t) = access_time {
        inode.access_time = t;
    }
    let new_val = rebuild(&val, &inode)?;
    node.replace_value(i, new_val.as_slice(), 0)?;
    Ok(i)
}

/// What is said of an inode without a dstream field.
pub open spec fn no_dstream(oid: u64) -> Fault {
    Fault::BadCatalog(msg1("inode "@, oid as nat, " has no dstream xfield"@))
}

/// The change of the logical size in the dstream field.
pub open spec fn size_edit(oid: u64, new_size: u64) -> spec_fn(Seq<u8>) -> Result<Seq<u8>, Fault> {
    |v: Seq<u8>|
        if v.len() < 92 {
            Err(truncated_inode(v.len()))
        } else {
            match dstream_pos(v.subrange(92, v.len() as int)) {
                None => Err(no_dstream(oid)),
                Some(at) => Ok(splice(v, 92 + at, bytes_u64(new_size))),
            }
        }
}

/// The change of logical and allocated size in the dstream field.
pub open spec fn size_and_alloc_edit(oid: u64, new_size: u64, new_alloced: u64) -> spec_fn(
    Seq<u8>,
) -> Result<Seq<u8>, Fault> {
    |v: Seq<u8>|
        if v.len() < 92 {
            Err(truncated_inode(v.len()))
        } else {
            match dstream_pos(v.subrange(92, v.len() as int)) {
                None => Err(no_dstream(oid)),
                Some(at) => Ok(
                    if 92 + at + 16 <= v.len() {
                        splice(
                            splice(v, 92 + at, bytes_u64(new_size)),
                            92 + at + 8,
                            bytes_u64(new_alloced),
                        )
                    } else {
                        splice(v, 92 + at, bytes_u64(new_size))
                    },
                ),
            }
        }
}

fn put_word(v: &mut Vec<u8>, at: usize, x: u64)
    requires
        at + 8 <= old(v).len(),
    ensures
        final(v)@ == splice(old(v)@, at as int, bytes_u64(x)),
{
    broadcast use group_bytes_len;

    let mut w: Vec<u8> = Vec::new();
    push_u64(&mut w, x);
    assert(w@ =~= bytes_u64(x));
    put_bytes(v.as_mut_slice(), at, w.as_slice());
}

/// Splice a new logical size into the dstream field of the inode for `oid`
/// inside `node`. The value keeps its length. Returns the entry index.
///
/// Neither the allocated size nor any extent is touched: blocks past a smaller
/// size stay allocated.
pub fn set_inode_dstream_size_in_node(node: &mut BTreeNode, oid: u64, new_size: u64) -> (r: Result<
    usize,
    ApfsError,
>)
    ensures
        (index_view(r), final(node)@) == edit_inode(
            old(node)@,
            oid,
            "set_inode_dstream_size_in_node: target is not a leaf"@,
            size_edit(oid, new_size),
        ),
{
    if !node.is_leaf() {
        return Err(bad_btree("set_inode_dstream_size_in_node: target is not a leaf"));
    }
    let i: usize = find_inode(node, oid)?;
    let mut val = inode_at(node, i)?;
    if val.len() < 92 {
        return Err(truncated(val.len()));
    }
    let at: usize = match locate_dstream(slice_subrange(val.as_slice(), 92, val.len())) {
        Some(at) => at,
        None => {
            return Err(
                ApfsError::BadCatalog(text1("inode ", oid, " has no dstream xfield")),
            );
        },
    };
    put_word(&mut val, 92 + at, new_size);
    node.replace_value(i, val.as_slice(), 0)?;
    Ok(i)
}

/// Splice a fresh dstream size and allocated size into the inode for `oid`
/// inside `node`. The value keeps its length; an inode without a dstream field
/// is refused.
pub fn set_inode_dstream_size_and_alloc_in_node(
    node: &mut BTreeNode,
    oid: u64,
    new_size: u64,
    new_alloced_size: u64,
) -> (r: Result<usize, ApfsError>)
    ensures
        (index_view(r), final(node)@) == edit_inode(
            old(node)@,
            oid,
            "set_inode_dstream_size_and_alloc_in_node: target is not a leaf"@,
            size_and_alloc_edit(oid, new_size, new_alloced_size),
        ),
{
    if !node.is_leaf() {
        return Err(bad_btree("set_inode_dstream_size_and_alloc_in_node: target is not a leaf"));
    }
    let i: usize = find_inode(node, oid)?;
    let mut val = inode_at(node, i)?;
    if val.len() < 92 {
        return Err(truncated(val.len()));
    }
    let at: usize = match locate_dstream(slice_subrange(val.as_slice(), 92, val.len())) {
        Some(at) => at,
        None => {
            return Err(
                ApfsError::BadCatalog(text1("inode ", oid, " has no dstream xfield")),
            );
        },
    };
    put_word(&mut val, 92 + at, new_size);
    if val.len() - (92 + at) >= 16 {
        put_word(&mut val, 92 + at + 8, new_alloced_size);
    }
    node.replace_value(i, val.as_slice(), 0)?;
    Ok(i)
}

/// The inode with another count of children or links.
pub open spec fn with_counter(i: InodeVal, n: int) -> InodeVal {
    InodeVal { nchildren_or_nlink: n as i32, ..i }
}

/// What is said when a counter cannot go down.
pub open spec fn counter_at_zero(oid: u64, n: i32) -> Fault {
    Fault::BadCatalog(
        msg_str(msg1("inode "@, oid as nat, ": counter already "@), decimal_signed(n as int), ""@),
    )
}

/// The decrement of a counter.
pub open spec fn dec_edit(oid: u64) -> spec_fn(Seq<u8>) -> Result<Seq<u8>, Fault> {
    |v: Seq<u8>|
        match inode_outcome(v) {
            Err(e) => Err(e),
            Ok(i) => if i.nchildren_or_nlink <= 0 {
                Err(counter_at_zero(oid, i.nchildren_or_nlink))
            } else {
                Ok(with_fixed(v, with_counter(i, i.nchildren_or_nlink - 1)))
            },
        }
}

/// The increment of a counter, which stops at its largest value.
pub open spec fn inc_edit() -> spec_fn(Seq<u8>) -> Result<Seq<u8>, Fault> {
    |v: Seq<u8>|
        match inode_outcome(v) {
            Err(e) => Err(e),
            Ok(i) => Ok(
                with_fixed(
                    v,
                    with_counter(
                        i,
                        if i.nchildren_or_nlink == i32::MAX {
                            i32::MAX as int
                        } else {
                            i.nchildren_or_nlink + 1
                        },
                    ),
                ),
            ),
        }
}

/// Decrement `nchildren_or_nlink` of the inode for `oid` inside `node`. For a
/// directory that is the number of children, for a file the number of links.
/// Returns the entry index; refused if the counter is already zero.
pub fn dec_inode_counter_in_node(node: &mut BTreeNode, oid: u64) -> (r: Result<usize, ApfsError>)
    ensures
        (index_view(r), final(node)@) == edit_inode(
            old(node)@,
            oid,
            "dec_inode_counter_in_node: target is not a leaf"@,
            dec_edit(oid),
        ),
{
    if !node.is_leaf() {
        return Err(bad_btree("dec_inode_counter_in_node: target is not a leaf"));
    }
    let i: usize = find_inode(node, oid)?;
    let val = inode_at(node, i)?;
    let mut inode = InodeVal::parse(val.as_slice())?;
    if inode.nchildren_or_nlink <= 0 {
        let head = text1("inode ", oid, ": counter already ");
        let n = decimal_signed_string(inode.nchildren_or_nlink as i64);
        return Err(ApfsError::BadCatalog(text_str(head.as_str(), n.as_str(), "")));
    }
    inode.nchildren_or_nlink = inode.nchildren_or_nlink - 1;
    let new_val = rebuild(&val, &inode)?;
    node.replace_value(i, new_val.as_slice(), 0)?;
    Ok(i)
}

/// Increment `nchildren_or_nlink` of the inode for `oid` inside `node`. Used
/// when a directory entry is added (parent's children) or a hard link (file's
/// links). Returns the entry index.
pub fn inc_inode_counter_in_node(node: &mut BTreeNode, oid: u64) -> (r: Result<usize, ApfsError>)
    ensures
        (index_view(r), final(node)@) == edit_inode(
            old(node)@,
            oid,
            "inc_inode_counter_in_node: target is not a leaf"@,
            inc_edit(),
        ),
{
    if !node.is_leaf() {
        return Err(bad_btree("inc_inode_counter_in_node: target is not a leaf"));
    }
    let i: usize = find_inode(node, oid)?;
    let val = inode_at(node, i)?;
    let mut inode = InodeVal::parse(val.as_slice())?;
    inode.nchildren_or_nlink = if inode.nchildren_or_nlink == i32::MAX {
        i32::MAX
    } else {
        inode.nchildren_or_nlink + 1
    };
    let new_val = rebuild(&val, &inode)?;
    node.replace_value(i, new_val.as_slice(), 0)?;
    Ok(i)
}

/// Whether a key belongs to `(oid, j_type)` and, where a name is given, to the
/// directory record of that name.
pub open spec fn key_matches(k: Seq<u8>, oid: u64, j_type: u8, name: Option<Seq<char>>) -> bool {
    &&& key_outcome(k) == Ok::<(u64, u8), Fault>((oid, j_type))
    &&& name matches Some(n) ==> drec_name_outcome(k) == Ok::<Seq<char>, Fault>(n)
}

/// The first entry from `i` on whose key matches. Keys that cannot be decoded
/// are passed over.
pub open spec fn matching_entry(
    n: NodeView,
    oid: u64,
    j_type: u8,
    name: Option<Seq<char>>,
    i: int,
) -> Result<Option<int>, Fault>
    decreases n.toc.len() - i,
{
    if i >= n.toc.len() {
        Ok(None)
    } else {
        match n.key(i, 0) {
            Err(e) => Err(e),
            Ok(k) => if key_matches(k, oid, j_type, name) {
                Ok(Some(i))
            } else {
                matching_entry(n, oid, j_type, name, i + 1)
            },
        }
    }
}

/// The entry of a leaf that matches.
pub open spec fn record_entry(n: NodeView, oid: u64, j_type: u8, name: Option<Seq<char>>) -> Result<
    Option<int>,
    Fault,
> {
    if !n.is_leaf() {
        Err(Fault::BadBTree("find_record_in_node: target is not a leaf"@))
    } else {
        matching_entry(n, oid, j_type, name, 0)
    }
}

/// A name, taken by view.
pub open spec fn opt_name(name: Option<&str>) -> Option<Seq<char>> {
    match name {
        Some(n) => Some(n@),
        None => None,
    }
}

/// An optional position, taken as a mathematical integer.
pub open spec fn opt_index_view(r: Result<Option<usize>, ApfsError>) -> Result<Option<int>, Fault> {
    match r {
        Ok(Some(i)) => Ok(Some(i as int)),
        Ok(None) => Ok(None),
        Err(e) => Err(e@),
    }
}

fn is_match(key: &[u8], oid: u64, j_type: u8, name: Option<&str>) -> (r: bool)
    ensures
        r == key_matches(key@, oid, j_type, opt_name(name)),
{
    match decode_catalog_key(key) {
        Ok((k_oid, k_type)) => {
            if k_oid != oid || k_type != j_type {
                return false;
            }
        },
        Err(_) => {
            return false;
        },
    }
    match name {
        Some(want) => match decode_drec_name(key) {
            Ok(n) => same_text(n.as_str(), want),
            Err(_) => false,
        },
        None => true,
    }
}

/// Find the entry index in `node` matching `(oid, j_type)`. Directory records
/// share one `(oid, type)` prefix; pass a name to match the record of exactly
/// that file name. Returns `None` if no entry matches.
pub fn find_record_in_node(node: &BTreeNode, oid: u64, j_type: u8, drec_name: Option<&str>) -> (r:
    Result<Option<usize>, ApfsError>)
    ensures
        opt_index_view(r) == record_entry(node@, oid, j_type, opt_name(drec_name)),
        r matches Ok(Some(i)) ==> i < node@.toc.len(),
{
    if !node.is_leaf() {
        return Err(bad_btree("find_record_in_node: target is not a leaf"));
    }
    let mut i: usize = 0;
    let count: usize = node.nkeys();
    while i < count
        invariant
            i <= count,
            count == node@.toc.len(),
            node@.is_leaf(),
            matching_entry(node@, oid, j_type, opt_name(drec_name), 0) == matching_entry(
                node@,
                oid,
                j_type,
                opt_name(drec_name),
                i as int,
            ),
        decreases count - i,
    {
        let key = node.key_at(i, 0)?;
        if is_match(key, oid, j_type, drec_name) {
            return Ok(Some(i));
        }
        i += 1;
    }
    Ok(None)
}

/// The outcome of taking out all matching entries from `i` on, when `removed`
/// were taken out before, and the leaf afterwards.
pub open spec fn sweep(n: NodeView, oid: u64, j_type: u8, i: int, removed: int) -> (
    Result<int, Fault>,
    NodeView,
)
    decreases n.toc.len() - i,
{
    if i >= n.toc.len() || i < 0 {
        (Ok(removed), n)
    } else {
        match n.key(i, 0) {
            Err(e) => (Err(e), n),
            Ok(k) => if key_matches(k, oid, j_type, None) {
                match n.delete_var(i) {
                    (Err(e), m) => (Err(e), m),
                    (Ok(_), m) => if m.toc.len() < n.toc.len() {
                        sweep(m, oid, j_type, i, removed + 1)
                    } else {
                        (Ok(removed), m)
                    },
                }
            } else {
                sweep(n, oid, j_type, i + 1, removed)
            },
        }
    }
}

/// The outcome of taking all records of `(oid, j_type)` out of a leaf, and the
/// leaf afterwards.
pub open spec fn delete_records(n: NodeView, oid: u64, j_type: u8) -> (Result<int, Fault>, NodeView) {
    if !n.is_leaf() {
        (Err(Fault::BadBTree("delete_records_in_node: target is not a leaf"@)), n)
    } else {
        sweep(n, oid, j_type, 0, 0)
    }
}

/// Delete every entry in `node` whose key matches `(oid, j_type)`. Returns the
/// count removed.
pub fn delete_records_in_node(node: &mut BTreeNode, oid: u64, j_type: u8) -> (r: Result<
    usize,
    ApfsError,
>)
    ensures
        (index_view(r), final(node)@) == delete_records(old(node)@, oid, j_type),
{
    if !node.is_leaf() {
        return Err(bad_btree("delete_records_in_node: target is not a leaf"));
    }
    let ghost before = node@;
    let total: usize = node.nkeys();
    let mut removed: usize = 0;
    let mut i: usize = 0;
    while i < node.nkeys()
        invariant
            before == old(node)@,
            before.is_leaf(),
            removed + node@.toc.len() == total,
            total == before.toc.len(),
            sweep(before, oid, j_type, 0, 0) == sweep(
                node@,
                oid,
                j_type,
                i as int,
                removed as int,
            ),
        decreases node@.toc.len() - i,
    {
        let key = node.key_at(i, 0)?;
        if is_match(key, oid, j_type, None) {
            node.delete_leaf_var(i)?;
            removed += 1;
            // The next entry has moved into this slot.
        } else {
            i += 1;
        }
    }
    Ok(removed)
}

/// The position of a new key among the entries from `i` on.
pub open spec fn insert_slot(n: NodeView, new_key: Seq<u8>, i: int) -> Result<int, Fault>
    decreases n.toc.len() - i,
{
    if i >= n.toc.len() {
        Ok(i)
    } else {
        match n.key(i, 0) {
            Err(e) => Err(e),
            Ok(k) => if key_sign(k, new_key) < 0 {
                insert_slot(n, new_key, i + 1)
            } else if key_sign(k, new_key) == 0 {
                Err(
                    Fault::Internal(
                        msg1("find_insert_index: duplicate key at idx "@, i as nat, ""@),
                    ),
                )
            } else {
                Ok(i)
            },
        }
    }
}

/// The position of a new key in a leaf.
pub open spec fn insert_index(n: NodeView, new_key: Seq<u8>) -> Result<int, Fault> {
    if !n.is_leaf() {
        Err(Fault::BadBTree("find_insert_index: target is not a leaf"@))
    } else {
        insert_slot(n, new_key, 0)
    }
}

/// Locate the insertion index for `new_key` inside the sorted table of `node`:
/// the first entry whose key is greater. A key that exists already is refused.
pub fn find_insert_index(node: &BTreeNode, new_key: &[u8]) -> (r: Result<usize, ApfsError>)
    ensures
        index_view(r) == insert_index(node@, new_key@),
{
    if !node.is_leaf() {
        return Err(bad_btree("find_insert_index: target is not a leaf"));
    }
    let mut i: usize = 0;
    let count: usize = node.nkeys();
    while i < count
        invariant
            i <= count,
            count == node@.toc.len(),
            node@.is_leaf(),
            insert_slot(node@, new_key@, 0) == insert_slot(node@, new_key@, i as int),
        decreases count - i,
    {
        let existing = node.key_at(i, 0)?;
        let o: i8 = key_order(existing, new_key);
        if o == 0 {
            return Err(
                ApfsError::Internal(
                    text1("find_insert_index: duplicate key at idx ", i as u64, ""),
                ),
            );
        }
        if o > 0 {
            return Ok(i);
        }
        i += 1;
    }
    Ok(i)
}

/// The outcome of inserting a record into a leaf, and the leaf afterwards.
pub open spec fn insert_record(n: NodeView, key: Seq<u8>, val: Seq<u8>) -> (
    Result<int, Fault>,
    NodeView,
) {
    match insert_index(n, key) {
        Err(e) => (Err(e), n),
        Ok(i) => match n.insert_var(i, key, val) {
            (Err(e), m) => (Err(e), m),
            (Ok(_), m) => (Ok(i), m),
        },
    }
}

fn insert_at_place(node: &mut BTreeNode, key: &[u8], val: &[u8]) -> (r: Result<usize, ApfsError>)
    ensures
        (index_view(r), final(node)@) == insert_record(old(node)@, key@, val@),
{
    let idx: usize = find_insert_index(node, key)?;
    node.insert_leaf_var(idx, key, val)?;
    Ok(idx)
}

/// The outcome of inserting a directory record into a leaf, and the leaf
/// afterwards.
pub open spec fn insert_drec(
    n: NodeView,
    parent_oid: u64,
    name: Seq<char>,
    hash22: u32,
    d: DrecVal,
) -> (Result<int, Fault>, NodeView) {
    match drec_key_outcome(parent_oid, name, hash22) {
        Err(e) => (Err(e), n),
        Ok(k) => insert_record(n, k, drec_bytes(d)),
    }
}

/// Insert a directory record under `parent_oid` with the given hashed name.
pub fn insert_drec_record(
    node: &mut BTreeNode,
    parent_oid: u64,
    name: &str,
    hash22: u32,
    file_id: u64,
    date_added: i64,
    file_type: u16,
) -> (r: Result<usize, ApfsError>)
    ensures
        (index_view(r), final(node)@) == insert_drec(
            old(node)@,
            parent_oid,
            name@,
            hash22,
            DrecVal { file_id, date_added, flags: file_type },
        ),
{
    let key = encode_drec_hashed_key(parent_oid, name, hash22)?;
    let d = DrecVal { file_id, date_added, flags: file_type };
    let val = d.to_bytes();
    insert_at_place(node, key.as_slice(), val.as_slice())
}

/// The key of a record that has one per object.
pub fn plain_key(oid: u64, j_type: u8) -> (k: Vec<u8>)
    ensures
        k@ == key_head(oid, j_type),
{
    let mut k: Vec<u8> = Vec::new();
    push_key_head(&mut k, oid, j_type);
    assert(k@ =~= key_head(oid, j_type));
    k
}

/// The key of a file extent.
pub open spec fn extent_key(oid: u64, logical_addr: u64) -> Seq<u8> {
    key_head(oid, J_TYPE_FILE_EXTENT) + bytes_u64(logical_addr)
}

/// The key of a file extent.
pub fn file_extent_key(oid: u64, logical_addr: u64) -> (k: Vec<u8>)
    ensures
        k@ == extent_key(oid, logical_addr),
{
    let mut k = plain_key(oid, J_TYPE_FILE_EXTENT);
    push_u64(&mut k, logical_addr);
    k
}

/// Insert a `J_TYPE_INODE` record. The caller supplies the encoded value
/// (fixed prefix and extended fields).
pub fn insert_inode_record(node: &mut BTreeNode, oid: u64, value: &[u8]) -> (r: Result<
    usize,
    ApfsError,
>)
    ensures
        (index_view(r), final(node)@) == insert_record(
            old(node)@,
            key_head(oid, J_TYPE_INODE),
            value@,
        ),
{
    let key = plain_key(oid, J_TYPE_INODE);
    insert_at_place(node, key.as_slice(), value)
}

/// Insert a `J_TYPE_DSTREAM_ID` record. The value is a 4-byte reference count.
pub fn insert_dstream_id_record(node: &mut BTreeNode, oid: u64, refcnt: u32) -> (r: Result<
    usize,
    ApfsError,
>)
    ensures
        (index_view(r), final(node)@) == insert_record(
            old(node)@,
            key_head(oid, J_TYPE_DSTREAM_ID),
            bytes_u32(refcnt),
        ),
{
    let key = plain_key(oid, J_TYPE_DSTREAM_ID);
    let mut val: Vec<u8> = Vec::new();
    push_u32(&mut val, refcnt);
    assert(val@ =~= bytes_u32(refcnt));
    insert_at_place(node, key.as_slice(), val.as_slice())
}

/// Insert a `J_TYPE_FILE_EXTENT` record. The key holds the logical address,
/// the value is a 24-byte `j_file_extent_val_t`.
pub fn insert_file_extent_record(
    node: &mut BTreeNode,
    oid: u64,
    logical_addr: u64,
    length: u64,
    phys_block: u64,
) -> (r: Result<usize, ApfsError>)
    requires
        length < EXTENT_LENGTH_LIMIT,
    ensures
        (index_view(r), final(node)@) == insert_record(
            old(node)@,
            extent_key(oid, logical_addr),
            extent_bytes(extent_with(length, 0, phys_block, 0)),
        ),
{
    let key = file_extent_key(oid, logical_addr);
    let val = FileExtentVal::from_length_and_flags(length, 0, phys_block, 0).to_bytes();
    insert_at_place(node, key.as_slice(), val.as_slice())
}

/// The outcome of replacing the value of an inode by one of any length, and
/// the leaf afterwards.
pub open spec fn replace_inode(n: NodeView, oid: u64, new_value: Seq<u8>) -> (
    Result<int, Fault>,
    NodeView,
) {
    match record_entry(n, oid, J_TYPE_INODE, None) {
        Err(e) => (Err(e), n),
        Ok(None) => (Err(no_inode(oid)), n),
        Ok(Some(i)) => match n.delete_var(i) {
            (Err(e), m) => (Err(e), m),
            (Ok(_), m) => match m.insert_var(i, key_head(oid, J_TYPE_INODE), new_value) {
                (Err(e), m2) => (Err(e), m2),
                (Ok(_), m2) => (Ok(i), m2),
            },
        },
    }
}

/// Replace the inode record for `oid` in `node` with a freshly encoded value,
/// whose length may differ: the entry is deleted and inserted again at the
/// same position. Returns the entry index.
pub fn replace_inode_value_in_node(node: &mut BTreeNode, oid: u64, new_value: &[u8]) -> (r: Result<
    usize,
    ApfsError,
>)
    ensures
        (index_view(r), final(node)@) == replace_inode(old(node)@, oid, new_value@),
{
    let idx: usize = match find_record_in_node(node, oid, J_TYPE_INODE, None)? {
        Some(i) => i,
        None => {
            return Err(ApfsError::NotFound(text1("inode ", oid, " not in node")));
        },
    };
    node.delete_leaf_var(idx)?;
    let key = plain_key(oid, J_TYPE_INODE);
    node.insert_leaf_var(idx, key.as_slice(), new_value)?;
    Ok(idx)
}

/// The outcome of moving an inode to another parent, and the leaf afterwards.
pub open spec fn reparent(n: NodeView, oid: u64, parent_oid: u64, now: i64) -> (
    Result<int, Fault>,
    NodeView,
) {
    match record_entry(n, oid, J_TYPE_INODE, None) {
        Err(e) => (Err(e), n),
        Ok(None) => (Err(Fault::NotFound(msg1("inode "@, oid as nat, ""@))), n),
        Ok(Some(i)) => match n.value(i, 0) {
            Err(e) => (Err(e), n),
            Ok(v) => match inode_outcome(v) {
                Err(e) => (Err(e), n),
                Ok(inode) => match n.replace(
                    i,
                    with_fixed(
                        v,
                        InodeVal { parent_id: parent_oid, change_time: now, ..inode },
                    ),
                    0,
                ) {
                    (Err(e), m) => (Err(e), m),
                    (Ok(_), m) => (Ok(i), m),
                },
            },
        },
    }
}

/// Rewrite the parent of the inode for `oid` and its change time.
pub fn set_inode_parent_in_node(node: &mut BTreeNode, oid: u64, parent_oid: u64, now: i64) -> (r:
    Result<usize, ApfsError>)
    ensures
        (index_view(r), final(node)@) == reparent(old(node)@, oid, parent_oid, now),
{
    let idx: usize = match find_record_in_node(node, oid, J_TYPE_INODE, None)? {
        Some(i) => i,
        None => {
            return Err(ApfsError::NotFound(text1("inode ", oid, "")));
        },
    };
    let val = inode_at(node, idx)?;
    let mut inode = InodeVal::parse(val.as_slice())?;
    inode.parent_id = parent_oid;
    inode.change_time = now;
    let new_val = rebuild(&val, &inode)?;
    node.replace_value(idx, new_val.as_slice(), 0)?;
    Ok(idx)
}

/// The data stream of a file that has `size` bytes.
pub open spec fn fresh_dstream(size: u64, alloced_size: u64) -> JDstream {
    JDstream {
        size,
        alloced_size,
        default_crypto_id: 0,
        total_bytes_written: size,
        total_bytes_read: 0,
    }
}

/// The outcome of giving an inode a dstream field, and the leaf afterwards.
pub open spec fn install_dstream(n: NodeView, oid: u64, size: u64, alloced_size: u64, now: i64) -> (
    Result<int, Fault>,
    NodeView,
) {
    match record_entry(n, oid, J_TYPE_INODE, None) {
        Err(e) => (Err(e), n),
        Ok(None) => (Err(Fault::NotFound(msg1("inode "@, oid as nat, ""@))), n),
        Ok(Some(i)) => match n.value(i, 0) {
            Err(e) => (Err(e), n),
            Ok(v) => match inode_outcome(v) {
                Err(e) => (Err(e), n),
                Ok(inode) => replace_inode(
                    n,
                    oid,
                    inode_value(
                        InodeVal {
                            dstream_size: Some(size),
                            modify_time: now,
                            change_time: now,
                            ..inode
                        },
                        Some(fresh_dstream(size, alloced_size)),
                    ),
                ),
            },
        },
    }
}

/// Rewrite the inode for `oid` with a fresh dstream field.
pub fn install_dstream_in_node(
    node: &mut BTreeNode,
    oid: u64,
    size: u64,
    alloced_size: u64,
    now: i64,
) -> (r: Result<usize, ApfsError>)
    ensures
        (index_view(r), final(node)@) == install_dstream(old(node)@, oid, size, alloced_size, now),
{
    let idx: usize = match find_record_in_node(node, oid, J_TYPE_INODE, None)? {
        Some(i) => i,
        None => {
            return Err(ApfsError::NotFound(text1("inode ", oid, "")));
        },
    };
    let val = inode_at(node, idx)?;
    let mut inode = InodeVal::parse(val.as_slice())?;
    inode.dstream_size = Some(size);
    inode.modify_time = now;
    inode.change_time = now;
    let new_val = build_inode_value(
        &inode,
        Some(
            JDstream {
                size,
                alloced_size,
                default_crypto_id: 0,
                total_bytes_written: size,
                total_bytes_read: 0,
            },
        ),
    )?;
    replace_inode_value_in_node(node, oid, new_val.as_slice())
}

/// Setting times changes the given times of an inode, and nothing else of it.
pub proof fn law_times_edit(
    v: Seq<u8>,
    create_time: Option<i64>,
    modify_time: Option<i64>,
    change_time: Option<i64>,
    access_time: Option<i64>,
)
    requires
        v.len() >= 92,
    ensures
        times_edit(create_time, modify_time, change_time, access_time)(v) matches Ok(w)
            && w.len() == v.len() && inode_outcome(w) == Ok::<InodeVal, Fault>(
            with_times(inode_of(v), create_time, modify_time, change_time, access_time),
        ),
{
    let i = with_times(inode_of(v), create_time, modify_time, change_time, access_time);
    lemma_with_fixed(v, i);
}

/// An inode value with another fixed part reads as the new fixed part, with
/// the size from the extended fields that were kept.
pub proof fn lemma_with_fixed(v: Seq<u8>, i: InodeVal)
    requires
        v.len() >= 92,
    ensures
        with_fixed(v, i).len() == v.len(),
        inode_outcome(with_fixed(v, i)) == Ok::<InodeVal, Fault>(
            InodeVal { dstream_size: inode_of(v).dstream_size, ..i },
        ),
{
    broadcast use group_bytes_len;

    let x = v.subrange(92, v.len() as int);
    law_inode_roundtrip(i, x);
    assert(inode_bytes(i).len() == 92);
}

/// Taking a child away undoes adding one.
pub proof fn law_inc_then_dec_counter(v: Seq<u8>, oid: u64)
    requires
        v.len() >= 92,
        0 <= inode_of(v).nchildren_or_nlink < i32::MAX,
    ensures
        inc_edit()(v) matches Ok(w) && (dec_edit(oid)(w) matches Ok(u) && inode_outcome(u) == Ok::<
            InodeVal,
            Fault,
        >(inode_of(v))),
{
    let i = inode_of(v);
    let up = with_counter(i, i.nchildren_or_nlink + 1);
    let w = with_fixed(v, up);
    lemma_with_fixed(v, up);
    lemma_with_fixed(w, with_counter(up, i.nchildren_or_nlink as int));
}

/// A leaf whose keys can all be read and stand in ascending order.
pub open spec fn keys_sorted(n: NodeView) -> bool {
    &&& forall|i: int| 0 <= i < n.toc.len() ==> (#[trigger] n.key(i, 0)) is Ok
    &&& forall|i: int, j: int|
        0 <= i < j < n.toc.len() ==> key_sign(
            (#[trigger] n.key(i, 0))->Ok_0,
            (#[trigger] n.key(j, 0))->Ok_0,
        ) < 0
}

proof fn lemma_insert_slot(n: NodeView, key: Seq<u8>, i: int)
    requires
        keys_sorted(n),
        0 <= i <= n.toc.len(),
        forall|j: int| 0 <= j < i ==> key_sign((#[trigger] n.key(j, 0))->Ok_0, key) < 0,
    ensures
        match insert_slot(n, key, i) {
            Ok(s) => {
                &&& i <= s <= n.toc.len()
                &&& forall|j: int| 0 <= j < s ==> key_sign((#[trigger] n.key(j, 0))->Ok_0, key) < 0
                &&& forall|j: int|
                    s <= j < n.toc.len() ==> key_sign(key, (#[trigger] n.key(j, 0))->Ok_0) < 0
            },
            Err(_) => exists|j: int|
                0 <= j < n.toc.len() && key_sign((#[trigger] n.key(j, 0))->Ok_0, key) == 0,
        },
    decreases n.toc.len() - i,
{
    if i < n.toc.len() {
        assert(n.key(i, 0) is Ok);
        let k = n.key(i, 0)->Ok_0;
        if key_sign(k, key) < 0 {
            lemma_insert_slot(n, key, i + 1);
        } else if key_sign(k, key) > 0 {
            law_key_order_flips(k, key);
            assert forall|j: int| i <= j < n.toc.len() implies key_sign(
                key,
                (#[trigger] n.key(j, 0))->Ok_0,
            ) < 0 by {
                if i < j {
                    let kj = n.key(j, 0)->Ok_0;
                    assert(key_sign(n.key(i, 0)->Ok_0, kj) < 0);
                    law_key_order_chains(key, k, kj);
                }
            }
        }
    }
}

/// In a sorted leaf a record goes between the keys below it and the keys above
/// it, and is refused only when an equal key is there already.
pub proof fn law_insert_index_keeps_order(n: NodeView, key: Seq<u8>)
    requires
        keys_sorted(n),
        n.is_leaf(),
    ensures
        match insert_index(n, key) {
            Ok(s) => {
                &&& 0 <= s <= n.toc.len()
                &&& forall|j: int| 0 <= j < s ==> key_sign((#[trigger] n.key(j, 0))->Ok_0, key) < 0
                &&& forall|j: int|
                    s <= j < n.toc.len() ==> key_sign(key, (#[trigger] n.key(j, 0))->Ok_0) < 0
            },
            Err(_) => exists|j: int|
                0 <= j < n.toc.len() && key_sign((#[trigger] n.key(j, 0))->Ok_0, key) == 0,
        },
{
    lemma_insert_slot(n, key, 0);
}

proof fn lemma_sweep(n: NodeView, oid: u64, j_type: u8, i: int, removed: int)
    requires
        n.is_leaf(),
        0 <= i <= n.toc.len(),
        sweep(n, oid, j_type, i, removed).0 is Ok,
        forall|j: int|
            0 <= j < i ==> (#[trigger] n.key(j, 0)) is Ok && !key_matches(
                n.key(j, 0)->Ok_0,
                oid,
                j_type,
                None,
            ),
    ensures
        ({
            let (r, m) = sweep(n, oid, j_type, i, removed);
            &&& r->Ok_0 - removed == n.toc.len() - m.toc.len()
            &&& m == (NodeView { toc: m.toc, ..n })
            &&& forall|j: int|
                0 <= j < m.toc.len() ==> (#[trigger] m.key(j, 0)) is Ok && !key_matches(
                    m.key(j, 0)->Ok_0,
                    oid,
                    j_type,
                    None,
                )
        }),
    decreases n.toc.len() - i,
{
    if i < n.toc.len() {
        let k = n.key(i, 0)->Ok_0;
        if key_matches(k, oid, j_type, None) {
            let m = n.delete_var(i).1;
            assert forall|j: int| 0 <= j < i implies (#[trigger] m.key(j, 0)) is Ok && !key_matches(
                m.key(j, 0)->Ok_0,
                oid,
                j_type,
                None,
            ) by {
                assert(m.toc[j] == n.toc[j]);
                assert(n.key(j, 0) is Ok);
                assert(m.key(j, 0) == n.key(j, 0));
            }
            lemma_sweep(m, oid, j_type, i, removed + 1);
        } else {
            lemma_sweep(n, oid, j_type, i + 1, removed);
        }
    }
}

/// After all records of an object and type were taken out of a leaf, none is
/// left, and the count says how many there were.
pub proof fn law_delete_records_leaves_none(n: NodeView, oid: u64, j_type: u8)
    requires
        delete_records(n, oid, j_type).0 is Ok,
    ensures
        ({
            let (r, m) = delete_records(n, oid, j_type);
            &&& r->Ok_0 == n.toc.len() - m.toc.len()
            &&& m == (NodeView { toc: m.toc, ..n })
            &&& forall|j: int|
                0 <= j < m.toc.len() ==> (#[trigger] m.key(j, 0)) is Ok && !key_matches(
                    m.key(j, 0)->Ok_0,
                    oid,
                    j_type,
                    None,
                )
        }),
{
    lemma_sweep(n, oid, j_type, 0, 0);
}

proof fn lemma_dstream_among(b: Seq<u8>, c: Seq<u8>, count: int, i: int, at: int)
    requires
        b.len() == c.len(),
        0 <= i,
        4 + 4 * count <= b.len(),
        forall|x: int| 0 <= x < 4 + 4 * count ==> #[trigger] b[x] == c[x],
    ensures
        dstream_among(c, count, i, at) == dstream_among(b, count, i, at),
        dstream_among(b, count, i, at) matches Some(p) ==> at <= p && p + 8 <= b.len(),
    decreases count - i,
{
    if i < count {
        let o = 4 + 4 * i + 2;
        assert(b.subrange(o, o + 2) =~= c.subrange(o, o + 2));
        lemma_dstream_among(b, c, count, i + 1, at + padded(le_u16(b, o) as int));
    }
}

/// Bytes behind the place of the dstream field do not move it.
proof fn lemma_dstream_stays(b: Seq<u8>, at: int, d: Seq<u8>)
    requires
        dstream_pos(b) matches Some(p) && p <= at,
    ensures
        dstream_pos(splice(b, at, d)) == dstream_pos(b),
        dstream_pos(b) matches Some(p) ==> 4 <= p && p + 8 <= b.len(),
{
    let c = splice(b, at, d);
    let count = le_u16(b, 0) as int;
    lemma_dstream_among(b, b, count, 0, 4 + 4 * count);
    assert(b.subrange(0, 2) =~= c.subrange(0, 2));
    lemma_dstream_among(b, c, count, 0, 4 + 4 * count);
}

proof fn lemma_inode_front(v: Seq<u8>, w: Seq<u8>)
    requires
        v.len() == w.len(),
        v.len() >= 92,
        forall|x: int| 0 <= x < 92 ==> #[trigger] v[x] == w[x],
    ensures
        inode_of(w) == (InodeVal { dstream_size: inode_of(w).dstream_size, ..inode_of(v) }),
{
    assert(v.subrange(0, 8) =~= w.subrange(0, 8));
    assert(v.subrange(8, 16) =~= w.subrange(8, 16));
    assert(v.subrange(16, 24) =~= w.subrange(16, 24));
    assert(v.subrange(24, 32) =~= w.subrange(24, 32));
    assert(v.subrange(32, 40) =~= w.subrange(32, 40));
    assert(v.subrange(40, 48) =~= w.subrange(40, 48));
    assert(v.subrange(48, 56) =~= w.subrange(48, 56));
    assert(v.subrange(56, 60) =~= w.subrange(56, 60));
    assert(v.subrange(60, 64) =~= w.subrange(60, 64));
    assert(v.subrange(64, 68) =~= w.subrange(64, 68));
    assert(v.subrange(68, 72) =~= w.subrange(68, 72));
    assert(v.subrange(72, 76) =~= w.subrange(72, 76));
    assert(v.subrange(76, 80) =~= w.subrange(76, 80));
    assert(v.subrange(80, 82) =~= w.subrange(80, 82));
    assert(v.subrange(82, 84) =~= w.subrange(82, 84));
    assert(v.subrange(84, 92) =~= w.subrange(84, 92));
}

/// Setting the size changes the size and nothing else of an inode.
pub proof fn law_size_edit(v: Seq<u8>, oid: u64, new_size: u64)
    ensures
        size_edit(oid, new_size)(v) matches Ok(w) ==> w.len() == v.len() && inode_outcome(w)
            == Ok::<InodeVal, Fault>(InodeVal { dstream_size: Some(new_size), ..inode_of(v) }),
{
    broadcast use group_bytes_len;

    if let Ok(w) = size_edit(oid, new_size)(v) {
        let x = v.subrange(92, v.len() as int);
        let y = w.subrange(92, v.len() as int);
        let at = dstream_pos(x)->0;
        lemma_dstream_stays(x, at, bytes_u64(new_size));
        assert(y =~= splice(x, at, bytes_u64(new_size)));
        assert(y.subrange(at, at + 8) =~= bytes_u64(new_size));
        lemma_read_u64(y, at, new_size);
        lemma_inode_front(v, w);
    }
}

/// Setting size and allocated size changes the size and nothing else that is
/// read of an inode.
pub proof fn law_size_and_alloc_edit(v: Seq<u8>, oid: u64, new_size: u64, new_alloced: u64)
    ensures
        size_and_alloc_edit(oid, new_size, new_alloced)(v) matches Ok(w) ==> w.len() == v.len()
            && inode_outcome(w) == Ok::<InodeVal, Fault>(
            InodeVal { dstream_size: Some(new_size), ..inode_of(v) },
        ),
{
    broadcast use group_bytes_len;

    if let Ok(w) = size_and_alloc_edit(oid, new_size, new_alloced)(v) {
        let x = v.subrange(92, v.len() as int);
        let y = w.subrange(92, v.len() as int);
        let at = dstream_pos(x)->0;
        let x1 = splice(x, at, bytes_u64(new_size));
        lemma_dstream_stays(x, at, bytes_u64(new_size));
        if 92 + at + 16 <= v.len() {
            lemma_dstream_stays(x1, at + 8, bytes_u64(new_alloced));
            assert(y =~= splice(x1, at + 8, bytes_u64(new_alloced)));
        } else {
            assert(y =~= x1);
        }
        assert(y.subrange(at, at + 8) =~= bytes_u64(new_size));
        lemma_read_u64(y, at, new_size);
        lemma_inode_front(v, w);
    }
}

} // verus!
