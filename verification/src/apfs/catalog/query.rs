//! Lookups and scans over the catalog.

use crate::apfs::btree::search::{
    btree_lookup_with_leaf, btree_scan_with_leaves, found_list_view, found_seq, hit_view, models,
    selects, tree_lookup, tree_scan, Found,
};
use crate::apfs::bytes::rd_u64;
use crate::apfs::catalog::records::{
    decode_drec_name, drec_file_type, drec_name_outcome, drec_outcome, extent_outcome,
    inode_outcome, inode_size, key_oid, key_type, DrecVal, FileExtentVal, InodeVal, DT_DIR, DT_LNK,
    J_TYPE_DIR_REC, J_TYPE_FILE_EXTENT, J_TYPE_INODE, ROOT_DIR_RECORD,
};
use crate::apfs::device::ReadAt;
use crate::apfs::error::{outcome, plain, ApfsError, Fault};
use crate::apfs::object::{agrees, refused};
use crate::apfs::omap::resolver;
use crate::apfs::packed::KIND_UNIT;
use crate::apfs::path::{components, join_names, joined, names_view, split_names};
use crate::apfs::text::{msg1, text1};
use crate::apfs::types::{entries_view, DirEntry, DirEntryView, EntryKind};
use crate::apfs::utf8::same_text;
use std::cmp::Ordering;
use vstd::prelude::*;

verus! {

/// Where a key stands relative to the records of `(oid, j_type)`. Keys that
/// are too short count as lying below.
pub open spec fn cat_rank(k: Seq<u8>, oid: u64, j_type: u8) -> int {
    if k.len() < 8 {
        -1
    } else if key_oid(k) != oid {
        key_oid(k) - oid
    } else {
        key_type(k) - j_type
    }
}

/// The search for the records of `(oid, j_type)`.
pub open spec fn cat_search(oid: u64, j_type: u8) -> spec_fn(Seq<u8>) -> int {
    |k: Seq<u8>| cat_rank(k, oid, j_type)
}

/// Which keys a scan for `(oid, j_type)` selects, and where it ends.
pub open spec fn cat_pick(k: Seq<u8>, oid: u64, j_type: u8) -> Option<bool> {
    if cat_rank(k, oid, j_type) < 0 {
        Some(false)
    } else if cat_rank(k, oid, j_type) == 0 {
        Some(true)
    } else {
        None
    }
}

/// The scan for the records of `(oid, j_type)`.
pub open spec fn cat_selection(oid: u64, j_type: u8) -> spec_fn(Seq<u8>) -> Option<bool> {
    |k: Seq<u8>| cat_pick(k, oid, j_type)
}

/// The first record of `(oid, j_type)` and the address of its leaf.
pub open spec fn record_hit(
    disk: Seq<u8>,
    catalog_root: u64,
    omap_root: u64,
    block_size: u32,
    oid: u64,
    j_type: u8,
) -> Result<Option<(Seq<u8>, u64)>, Fault> {
    tree_lookup(
        disk,
        catalog_root,
        block_size,
        0,
        0,
        cat_search(oid, j_type),
        resolver(disk, block_size, Some(omap_root)),
    )
}

/// All records of `(oid, j_type)` with the addresses of their leaves.
pub open spec fn record_list(
    disk: Seq<u8>,
    catalog_root: u64,
    omap_root: u64,
    block_size: u32,
    oid: u64,
    j_type: u8,
) -> Result<Seq<Found>, Fault> {
    tree_scan(
        disk,
        catalog_root,
        block_size,
        0,
        0,
        cat_selection(oid, j_type),
        resolver(disk, block_size, Some(omap_root)),
    )
}

/// Find the first record of `(oid, j_type)` and the address of its leaf.
pub fn find_catalog_record<D: ReadAt>(
    dev: &D,
    catalog_root: u64,
    omap_root: u64,
    block_size: u32,
    oid: u64,
    j_type: u8,
) -> (r: Result<Option<(Vec<u8>, u64)>, ApfsError>)
    ensures
        agrees(
            hit_view(r),
            record_hit(dev.bytes(), catalog_root, omap_root, block_size, oid, j_type),
            dev.reliable(),
        ),
{
    let order = |key: &[u8]| -> (o: Ordering)
        ensures
            match o {
                Ordering::Less => cat_rank(key@, oid, j_type) < 0,
                Ordering::Equal => cat_rank(key@, oid, j_type) == 0,
                Ordering::Greater => cat_rank(key@, oid, j_type) > 0,
            },
        {
            let r: i8 = rank_of(key, oid, j_type);
            if r < 0 {
                Ordering::Less
            } else if r == 0 {
                Ordering::Equal
            } else {
                Ordering::Greater
            }
        };
    assert(models(order, cat_search(oid, j_type)));
    btree_lookup_with_leaf(dev, catalog_root, block_size, 0, 0, &order, Some(omap_root))
}

fn rank_of(key: &[u8], oid: u64, j_type: u8) -> (r: i8)
    ensures
        (r < 0) == (cat_rank(key@, oid, j_type) < 0),
        (r == 0) == (cat_rank(key@, oid, j_type) == 0),
{
    if key.len() < 8 {
        return -1;
    }
    let w: u64 = rd_u64(key, 0);
    let k_oid: u64 = w % KIND_UNIT;
    let k_type: u64 = w / KIND_UNIT;
    if k_oid != oid {
        return if k_oid < oid {
            -1
        } else {
            1
        };
    }
    if k_type < j_type as u64 {
        -1
    } else if k_type == j_type as u64 {
        0
    } else {
        1
    }
}

/// Find all records of `(oid, j_type)` with the addresses of their leaves.
pub fn scan_catalog_records<D: ReadAt>(
    dev: &D,
    catalog_root: u64,
    omap_root: u64,
    block_size: u32,
    oid: u64,
    j_type: u8,
) -> (r: Result<Vec<(Vec<u8>, Vec<u8>, u64)>, ApfsError>)
    ensures
        agrees(
            found_list_view(r),
            record_list(dev.bytes(), catalog_root, omap_root, block_size, oid, j_type),
            dev.reliable(),
        ),
{
    let range = |key: &[u8]| -> (o: Option<bool>)
        ensures
            o == cat_pick(key@, oid, j_type),
        {
            let r: i8 = rank_of(key, oid, j_type);
            if r < 0 {
                Some(false)
            } else if r == 0 {
                Some(true)
            } else {
                None
            }
        };
    assert(selects(range, cat_selection(oid, j_type)));
    btree_scan_with_leaves(dev, catalog_root, block_size, 0, 0, &range, Some(omap_root))
}

/// The inode of `oid`.
pub open spec fn inode_lookup(
    disk: Seq<u8>,
    catalog_root: u64,
    omap_root: u64,
    block_size: u32,
    oid: u64,
) -> Result<InodeVal, Fault> {
    match record_hit(disk, catalog_root, omap_root, block_size, oid, J_TYPE_INODE) {
        Err(e) => Err(e),
        Ok(None) => Err(Fault::NotFound(msg1("inode oid "@, oid as nat, ""@))),
        Ok(Some((v, _))) => inode_outcome(v),
    }
}

/// Look up the `j_inode_val_t` for `oid`.
pub fn lookup_inode<D: ReadAt>(
    dev: &D,
    catalog_root: u64,
    omap_root: u64,
    block_size: u32,
    oid: u64,
) -> (r: Result<InodeVal, ApfsError>)
    ensures
        agrees(
            plain(r),
            inode_lookup(dev.bytes(), catalog_root, omap_root, block_size, oid),
            dev.reliable(),
        ),
{
    match find_catalog_record(dev, catalog_root, omap_root, block_size, oid, J_TYPE_INODE)? {
        Some((v, _)) => InodeVal::parse(v.as_slice()),
        None => Err(ApfsError::NotFound(text1("inode oid ", oid, ""))),
    }
}

/// The extents that records hold, from record `i` on.
pub open spec fn extents_from(found: Seq<Found>, i: int) -> Result<Seq<FileExtentVal>, Fault>
    decreases found.len() - i,
{
    if i >= found.len() || i < 0 {
        Ok(Seq::empty())
    } else {
        match extent_outcome(found[i].1) {
            Err(e) => Err(e),
            Ok(x) => match extents_from(found, i + 1) {
                Err(e) => Err(e),
                Ok(rest) => Ok(seq![x] + rest),
            },
        }
    }
}

/// The extents of a file.
pub open spec fn extents_lookup(
    disk: Seq<u8>,
    catalog_root: u64,
    omap_root: u64,
    block_size: u32,
    file_oid: u64,
) -> Result<Seq<FileExtentVal>, Fault> {
    match record_list(disk, catalog_root, omap_root, block_size, file_oid, J_TYPE_FILE_EXTENT) {
        Err(e) => Err(e),
        Ok(found) => extents_from(found, 0),
    }
}

/// Extents in front of what reading the rest gives.
pub open spec fn extents_after(
    seen: Seq<FileExtentVal>,
    rest: Result<Seq<FileExtentVal>, Fault>,
) -> Result<Seq<FileExtentVal>, Fault> {
    match rest {
        Err(e) => Err(e),
        Ok(more) => Ok(seen + more),
    }
}

/// Scan the catalog for every `J_TYPE_FILE_EXTENT` whose key oid matches.
pub fn lookup_extents<D: ReadAt>(
    dev: &D,
    catalog_root: u64,
    omap_root: u64,
    block_size: u32,
    file_oid: u64,
) -> (r: Result<Vec<FileExtentVal>, ApfsError>)
    ensures
        agrees(
            outcome(r),
            extents_lookup(dev.bytes(), catalog_root, omap_root, block_size, file_oid),
            dev.reliable(),
        ),
{
    let entries = scan_catalog_records(
        dev,
        catalog_root,
        omap_root,
        block_size,
        file_oid,
        J_TYPE_FILE_EXTENT,
    )?;
    let ghost found = found_seq(entries@);
    let mut out: Vec<FileExtentVal> = Vec::new();
    let mut i: usize = 0;
    assert(extents_after(out@, extents_from(found, 0)) == extents_from(found, 0)) by {
        if extents_from(found, 0) is Ok {
            assert(out@ + extents_from(found, 0)->Ok_0 =~= extents_from(found, 0)->Ok_0);
        }
    }
    while i < entries.len()
        invariant
            i <= entries.len(),
            found == found_seq(entries@),
            agrees(
                extents_from(found, 0),
                extents_lookup(dev.bytes(), catalog_root, omap_root, block_size, file_oid),
                dev.reliable(),
            ),
            extents_after(out@, extents_from(found, i as int)) == extents_from(found, 0),
        decreases entries.len() - i,
    {
        let (_, v, _) = &entries[i];
        assert(found[i as int].1 == v@);
        let x = FileExtentVal::parse(v.as_slice())?;
        let ghost before = out@;
        out.push(x);
        proof {
            let rest = extents_from(found, i + 1);
            if rest is Ok {
                assert(before + (seq![x] + rest->Ok_0) =~= out@ + rest->Ok_0);
            }
        }
        i += 1;
    }
    assert(out@ + Seq::<FileExtentVal>::empty() =~= out@);
    Ok(out)
}

/// The kind of entry that a directory record names.
pub open spec fn drec_kind(d: DrecVal) -> EntryKind {
    if drec_file_type(d.flags) == DT_DIR {
        EntryKind::Directory
    } else if drec_file_type(d.flags) == DT_LNK {
        EntryKind::Symlink
    } else {
        EntryKind::File
    }
}

/// The entry that a directory record describes; size and times come from the
/// inode, and are 0 where it cannot be had.
pub open spec fn entry_with(name: Seq<char>, d: DrecVal, inode: Result<InodeVal, Fault>) -> DirEntryView {
    DirEntryView {
        name,
        oid: d.file_id,
        kind: drec_kind(d),
        size: match inode {
            Ok(i) => inode_size(i),
            Err(_) => 0,
        },
        create_time: match inode {
            Ok(i) => i.create_time,
            Err(_) => 0,
        },
        modify_time: match inode {
            Ok(i) => i.modify_time,
            Err(_) => 0,
        },
    }
}

/// Name and record that a key and a value hold, if both can be read.
pub open spec fn named_drec(f: Found) -> Option<(Seq<char>, DrecVal)> {
    match drec_name_outcome(f.0) {
        Err(_) => None,
        Ok(name) => match drec_outcome(f.1) {
            Err(_) => None,
            Ok(d) => Some((name, d)),
        },
    }
}

/// The entries that records describe, from record `i` on. Records that cannot
/// be read are passed over.
pub open spec fn entries_from(
    disk: Seq<u8>,
    catalog_root: u64,
    omap_root: u64,
    block_size: u32,
    found: Seq<Found>,
    i: int,
) -> Seq<DirEntryView>
    decreases found.len() - i,
{
    if i >= found.len() || i < 0 {
        Seq::empty()
    } else {
        let rest = entries_from(disk, catalog_root, omap_root, block_size, found, i + 1);
        match named_drec(found[i]) {
            None => rest,
            Some((name, d)) => seq![
                entry_with(
                    name,
                    d,
                    inode_lookup(disk, catalog_root, omap_root, block_size, d.file_id),
                ),
            ] + rest,
        }
    }
}

/// The entries of a directory.
pub open spec fn directory_outcome(
    disk: Seq<u8>,
    catalog_root: u64,
    omap_root: u64,
    block_size: u32,
    parent_oid: u64,
) -> Result<Seq<DirEntryView>, Fault> {
    match record_list(disk, catalog_root, omap_root, block_size, parent_oid, J_TYPE_DIR_REC) {
        Err(e) => Err(e),
        Ok(found) => Ok(
            entries_from(disk, catalog_root, omap_root, block_size, found, 0),
        ),
    }
}

/// An entry without what comes from the inode.
pub open spec fn bare(e: DirEntryView) -> DirEntryView {
    DirEntryView { size: 0, create_time: 0, modify_time: 0, ..e }
}

/// Whether an entry is another one, perhaps without what comes from the inode.
pub open spec fn told_entry(e: DirEntryView, u: DirEntryView) -> bool {
    e == u || e == bare(u)
}

/// Whether entries are other ones, some of them perhaps without what comes from
/// the inode.
pub open spec fn told(s: Seq<DirEntryView>, u: Seq<DirEntryView>) -> bool {
    &&& s.len() == u.len()
    &&& forall|i: int| 0 <= i < s.len() ==> told_entry(#[trigger] s[i], u[i])
}

/// A list of entries, taken by view.
pub open spec fn dir_list_view(r: Result<Vec<DirEntry>, ApfsError>) -> Result<
    Seq<DirEntryView>,
    Fault,
> {
    match r {
        Err(e) => Err(e@),
        Ok(v) => Ok(entries_view(v@)),
    }
}

/// Whether a listing is the one that is called for, but that inodes which could
/// not be had may have left size and times 0.
pub open spec fn told_outcome(
    r: Result<Seq<DirEntryView>, Fault>,
    called_for: Result<Seq<DirEntryView>, Fault>,
) -> bool {
    match (r, called_for) {
        (Ok(s), Ok(u)) => told(s, u),
        (Err(e), Err(f)) => e == f,
        _ => false,
    }
}

proof fn lemma_listed(
    before: Seq<DirEntryView>,
    got: DirEntryView,
    e: DirEntryView,
    rest: Seq<DirEntryView>,
    all: Seq<DirEntryView>,
)
    requires
        told_entry(got, e),
        told(before + (seq![e] + rest), all),
    ensures
        told(before.push(got) + rest, all),
        got == e ==> before + (seq![e] + rest) == before.push(got) + rest,
{
    let x = before + (seq![e] + rest);
    let y = before.push(got) + rest;
    assert forall|i: int| 0 <= i < y.len() implies told_entry(#[trigger] y[i], all[i]) by {
        assert(told_entry(x[i], all[i]));
        if i != before.len() {
            assert(y[i] == x[i]);
        }
    }
    if got == e {
        assert(x =~= y);
    }
}

/// List directory entries under `parent_oid`. The child inode is resolved for
/// size and timestamps; an inode that cannot be had leaves them 0.
pub fn list_directory<D: ReadAt>(
    dev: &D,
    catalog_root: u64,
    omap_root: u64,
    block_size: u32,
    parent_oid: u64,
) -> (r: Result<Vec<DirEntry>, ApfsError>)
    ensures
        dev.reliable() ==> dir_list_view(r) == directory_outcome(
            dev.bytes(),
            catalog_root,
            omap_root,
            block_size,
            parent_oid,
        ),
        told_outcome(
            dir_list_view(r),
            directory_outcome(dev.bytes(), catalog_root, omap_root, block_size, parent_oid),
        ) || (!dev.reliable() && refused(dir_list_view(r))),
{
    let raw = scan_catalog_records(
        dev,
        catalog_root,
        omap_root,
        block_size,
        parent_oid,
        J_TYPE_DIR_REC,
    )?;
    let ghost found = found_seq(raw@);
    let ghost all = entries_from(dev.bytes(), catalog_root, omap_root, block_size, found, 0);
    let mut out: Vec<DirEntry> = Vec::new();
    let mut i: usize = 0;
    assert(entries_view(out@) + all =~= all);
    while i < raw.len()
        invariant
            i <= raw.len(),
            found == found_seq(raw@),
            all == entries_from(dev.bytes(), catalog_root, omap_root, block_size, found, 0),
            dev.reliable() ==> entries_view(out@) + entries_from(
                dev.bytes(),
                catalog_root,
                omap_root,
                block_size,
                found,
                i as int,
            ) == all,
            told(
                entries_view(out@) + entries_from(
                    dev.bytes(),
                    catalog_root,
                    omap_root,
                    block_size,
                    found,
                    i as int,
                ),
                all,
            ),
        decreases raw.len() - i,
    {
        let (key, val, _) = &raw[i];
        assert(found[i as int].0 == key@ && found[i as int].1 == val@);
        let ghost rest = entries_from(
            dev.bytes(),
            catalog_root,
            omap_root,
            block_size,
            found,
            i + 1,
        );
        let parsed = match decode_drec_name(key.as_slice()) {
            Ok(name) => match DrecVal::parse(val.as_slice()) {
                Ok(drec) => Some((name, drec)),
                Err(_) => None,
            },
            Err(_) => None,
        };
        if let Some((name, drec)) = parsed {
            let kind = if drec.file_type() == DT_DIR {
                EntryKind::Directory
            } else if drec.file_type() == DT_LNK {
                EntryKind::Symlink
            } else {
                EntryKind::File
            };
            let (size, create_time, modify_time) = match lookup_inode(
                dev,
                catalog_root,
                omap_root,
                block_size,
                drec.file_id,
            ) {
                Ok(inode) => (inode.size(), inode.create_time, inode.modify_time),
                Err(_) => (0, 0, 0),
            };
            let entry = DirEntry { name, oid: drec.file_id, kind, size, create_time, modify_time };
            let ghost before = entries_view(out@);
            out.push(entry);
            proof {
                let e = entry_with(
                    name@,
                    drec,
                    inode_lookup(dev.bytes(), catalog_root, omap_root, block_size, drec.file_id),
                );
                assert(entries_view(out@) =~= before.push(entry@));
                lemma_listed(before, entry@, e, rest, all);
            }
        }
        i += 1;
    }
    assert(entries_view(out@) + Seq::<DirEntryView>::empty() =~= entries_view(out@));
    Ok(out)
}

/// The first record of the given name, from record `i` on.
pub open spec fn drec_named(found: Seq<Found>, name: Seq<char>, i: int) -> Result<DrecVal, Fault>
    decreases found.len() - i,
{
    if i >= found.len() || i < 0 {
        Err(Fault::NotFound(name))
    } else if drec_name_outcome(found[i].0) == Ok::<Seq<char>, Fault>(name) {
        drec_outcome(found[i].1)
    } else {
        drec_named(found, name, i + 1)
    }
}

/// The directory record of a name.
pub open spec fn drec_lookup(
    disk: Seq<u8>,
    catalog_root: u64,
    omap_root: u64,
    block_size: u32,
    parent_oid: u64,
    name: Seq<char>,
) -> Result<DrecVal, Fault> {
    match record_list(disk, catalog_root, omap_root, block_size, parent_oid, J_TYPE_DIR_REC) {
        Err(e) => Err(e),
        Ok(found) => drec_named(found, name, 0),
    }
}

fn lookup_drec<D: ReadAt>(
    dev: &D,
    catalog_root: u64,
    omap_root: u64,
    block_size: u32,
    parent_oid: u64,
    name: &str,
) -> (r: Result<DrecVal, ApfsError>)
    ensures
        agrees(
            plain(r),
            drec_lookup(dev.bytes(), catalog_root, omap_root, block_size, parent_oid, name@),
            dev.reliable(),
        ),
{
    let entries = scan_catalog_records(
        dev,
        catalog_root,
        omap_root,
        block_size,
        parent_oid,
        J_TYPE_DIR_REC,
    )?;
    let ghost found = found_seq(entries@);
    let mut i: usize = 0;
    while i < entries.len()
        invariant
            i <= entries.len(),
            found == found_seq(entries@),
            agrees(
                drec_named(found, name@, 0),
                drec_lookup(dev.bytes(), catalog_root, omap_root, block_size, parent_oid, name@),
                dev.reliable(),
            ),
            drec_named(found, name@, 0) == drec_named(found, name@, i as int),
        decreases entries.len() - i,
    {
        let (key, val, _) = &entries[i];
        assert(found[i as int].0 == key@ && found[i as int].1 == val@);
        if let Ok(n) = decode_drec_name(key.as_slice()) {
            if same_text(n.as_str(), name) {
                return DrecVal::parse(val.as_slice());
            }
        }
        i += 1;
    }
    Err(ApfsError::NotFound(name.to_string()))
}

/// The object that the names from `i` on lead to, starting in directory
/// `parent`.
pub open spec fn walk_names(
    disk: Seq<u8>,
    catalog_root: u64,
    omap_root: u64,
    block_size: u32,
    names: Seq<Seq<char>>,
    i: int,
    parent: u64,
) -> Result<(u64, InodeVal), Fault>
    decreases names.len() - i,
{
    if i >= names.len() || i < 0 {
        match inode_lookup(disk, catalog_root, omap_root, block_size, parent) {
            Err(e) => Err(e),
            Ok(inode) => Ok((parent, inode)),
        }
    } else {
        match drec_lookup(disk, catalog_root, omap_root, block_size, parent, names[i]) {
            Err(e) => Err(e),
            Ok(d) => if i < names.len() - 1 && drec_file_type(d.flags) != DT_DIR {
                Err(Fault::NotADirectory(joined(names, i + 1)))
            } else {
                walk_names(
                    disk,
                    catalog_root,
                    omap_root,
                    block_size,
                    names,
                    i + 1,
                    d.file_id,
                )
            },
        }
    }
}

/// The object that a path names.
pub open spec fn path_outcome(
    disk: Seq<u8>,
    catalog_root: u64,
    omap_root: u64,
    block_size: u32,
    path: Seq<char>,
) -> Result<(u64, InodeVal), Fault> {
    walk_names(
        disk,
        catalog_root,
        omap_root,
        block_size,
        components(path),
        0,
        ROOT_DIR_RECORD,
    )
}

/// Walk a slash-separated path from the root and return `(oid, inode)`.
pub fn resolve_path<D: ReadAt>(
    dev: &D,
    catalog_root: u64,
    omap_root: u64,
    block_size: u32,
    path: &str,
) -> (r: Result<(u64, InodeVal), ApfsError>)
    ensures
        agrees(
            plain(r),
            path_outcome(dev.bytes(), catalog_root, omap_root, block_size, path@),
            dev.reliable(),
        ),
{
    let names = split_names(path);
    let ghost parts = names_view(names@);
    let mut parent: u64 = ROOT_DIR_RECORD;
    let mut i: usize = 0;
    while i < names.len()
        invariant
            i <= names.len(),
            parts == names_view(names@),
            parts == components(path@),
            path_outcome(dev.bytes(), catalog_root, omap_root, block_size, path@) == walk_names(
                dev.bytes(),
                catalog_root,
                omap_root,
                block_size,
                parts,
                i as int,
                parent,
            ),
        decreases names.len() - i,
    {
        assert(parts[i as int] == names@[i as int]@);
        let drec = lookup_drec(
            dev,
            catalog_root,
            omap_root,
            block_size,
            parent,
            names[i].as_str(),
        )?;
        if i < names.len() - 1 && drec.file_type() != DT_DIR {
            return Err(ApfsError::NotADirectory(join_names(&names, i + 1)));
        }
        parent = drec.file_id;
        i += 1;
    }
    let inode = lookup_inode(dev, catalog_root, omap_root, block_size, parent)?;
    Ok((parent, inode))
}

} // verus!
