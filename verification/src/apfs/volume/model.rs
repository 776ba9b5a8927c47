//! What the records of a catalog say of the files on a volume.

use crate::apfs::btree::records::records;
use crate::apfs::btree::search::Found;
use crate::apfs::catalog::order::{key_sign, law_key_order_is_transitive};
use crate::apfs::catalog::query::{
    cat_rank, drec_named, entries_from, entry_with, extents_from, inode_lookup, named_drec,
    walk_names,
};
use crate::apfs::catalog::records::{
    drec_file_type, inode_outcome, DrecVal, FileExtentVal, InodeVal, DT_DIR, J_TYPE_DIR_REC,
    J_TYPE_FILE_EXTENT, J_TYPE_INODE, ROOT_DIR_RECORD,
};
use crate::apfs::error::Fault;
use crate::apfs::path::{components, joined};
use crate::apfs::text::msg1;
use crate::apfs::types::DirEntryView;
use crate::apfs::volume::state::VolumeView;
use crate::apfs::volume::tree::{
    first_hit, law_lookups_find_records, lemma_child_order, lemma_leaf_order, lemma_picked_add,
    lemma_picked_none, lemma_picked_one, lemma_single, ordered, picked, recs, recs_from, sep,
    single, upper, within, Tree,
};
use vstd::prelude::*;

verus! {

/// The inode of `oid` among records.
pub open spec fn inode_in(r: Seq<Found>, oid: u64) -> Result<InodeVal, Fault> {
    match first_hit(picked(r, oid, J_TYPE_INODE)) {
        None => Err(Fault::NotFound(msg1("inode oid "@, oid as nat, ""@))),
        Some((v, _)) => inode_outcome(v),
    }
}

/// The directory record of a name among records.
pub open spec fn drec_in(r: Seq<Found>, parent: u64, name: Seq<char>) -> Result<DrecVal, Fault> {
    drec_named(picked(r, parent, J_TYPE_DIR_REC), name, 0)
}

/// The object that the names from `i` on lead to among records, starting in
/// directory `parent`.
pub open spec fn walk_in(r: Seq<Found>, names: Seq<Seq<char>>, i: int, parent: u64) -> Result<
    (u64, InodeVal),
    Fault,
>
    decreases names.len() - i,
{
    if i >= names.len() || i < 0 {
        match inode_in(r, parent) {
            Err(e) => Err(e),
            Ok(inode) => Ok((parent, inode)),
        }
    } else {
        match drec_in(r, parent, names[i]) {
            Err(e) => Err(e),
            Ok(d) => if i < names.len() - 1 && drec_file_type(d.flags) != DT_DIR {
                Err(Fault::NotADirectory(joined(names, i + 1)))
            } else {
                walk_in(r, names, i + 1, d.file_id)
            },
        }
    }
}

/// The object that a path names among records.
pub open spec fn path_in(r: Seq<Found>, path: Seq<char>) -> Result<(u64, InodeVal), Fault> {
    walk_in(r, components(path), 0, ROOT_DIR_RECORD)
}

/// The extents of a file among records.
pub open spec fn extents_in(r: Seq<Found>, oid: u64) -> Result<Seq<FileExtentVal>, Fault> {
    extents_from(picked(r, oid, J_TYPE_FILE_EXTENT), 0)
}

/// The entries that directory records describe, from record `i` on.
pub open spec fn entries_in(r: Seq<Found>, found: Seq<Found>, i: int) -> Seq<DirEntryView>
    decreases found.len() - i,
{
    if i >= found.len() || i < 0 {
        Seq::empty()
    } else {
        let rest = entries_in(r, found, i + 1);
        match named_drec(found[i]) {
            None => rest,
            Some((name, d)) => seq![entry_with(name, d, inode_in(r, d.file_id))] + rest,
        }
    }
}

/// The entries of a directory among records.
pub open spec fn directory_in(r: Seq<Found>, oid: u64) -> Seq<DirEntryView> {
    entries_in(r, picked(r, oid, J_TYPE_DIR_REC), 0)
}

proof fn lemma_inode_in(v: VolumeView, t: Tree, oid: u64)
    requires
        v.has_catalog(t),
    ensures
        inode_lookup(v.disk, v.catalog_root, v.omap_root, v.block_size, oid) == inode_in(
            recs(t),
            oid,
        ),
{
    law_lookups_find_records(v, t, oid, J_TYPE_INODE);
}

proof fn lemma_walk_in(v: VolumeView, t: Tree, names: Seq<Seq<char>>, i: int, parent: u64)
    requires
        v.has_catalog(t),
    ensures
        walk_names(v.disk, v.catalog_root, v.omap_root, v.block_size, names, i, parent)
            == walk_in(recs(t), names, i, parent),
    decreases names.len() - i,
{
    if i >= names.len() || i < 0 {
        lemma_inode_in(v, t, parent);
    } else {
        law_lookups_find_records(v, t, parent, J_TYPE_DIR_REC);
        if let Ok(d) = drec_in(recs(t), parent, names[i]) {
            lemma_walk_in(v, t, names, i + 1, d.file_id);
        }
    }
}

proof fn lemma_entries_in(v: VolumeView, t: Tree, found: Seq<Found>, i: int)
    requires
        v.has_catalog(t),
    ensures
        entries_from(v.disk, v.catalog_root, v.omap_root, v.block_size, found, i) == entries_in(
            recs(t),
            found,
            i,
        ),
    decreases found.len() - i,
{
    if 0 <= i < found.len() {
        lemma_entries_in(v, t, found, i + 1);
        if let Some((name, d)) = named_drec(found[i]) {
            lemma_inode_in(v, t, d.file_id);
        }
    }
}

/// What a volume says of paths, directories and extents is what the records of
/// its catalog say.
pub proof fn law_volume_shows_records(v: VolumeView, t: Tree, path: Seq<char>, oid: u64)
    requires
        v.has_catalog(t),
    ensures
        v.resolve(path) == path_in(recs(t), path),
        v.directory(oid) == Ok::<Seq<DirEntryView>, Fault>(directory_in(recs(t), oid)),
        v.extents(oid) == extents_in(recs(t), oid),
{
    lemma_walk_in(v, t, components(path), 0, ROOT_DIR_RECORD);
    law_lookups_find_records(v, t, oid, J_TYPE_DIR_REC);
    law_lookups_find_records(v, t, oid, J_TYPE_FILE_EXTENT);
    lemma_entries_in(v, t, picked(recs(t), oid, J_TYPE_DIR_REC), 0);
}

/// Records in ascending order of their keys.
pub open spec fn sorted(r: Seq<Found>) -> bool {
    &&& forall|i: int| 0 <= i < r.len() ==> (#[trigger] r[i]).0.len() >= 8
    &&& forall|i: int, j: int|
        0 <= i < j < r.len() ==> key_sign((#[trigger] r[i]).0, (#[trigger] r[j]).0) < 0
}

/// Records between two keys.
pub open spec fn all_within(r: Seq<Found>, lo: Option<Seq<u8>>, hi: Option<Seq<u8>>) -> bool {
    forall|i: int| 0 <= i < r.len() ==> within((#[trigger] r[i]).0, lo, hi)
}

proof fn lemma_within_wider(
    k: Seq<u8>,
    lo: Option<Seq<u8>>,
    hi: Option<Seq<u8>>,
    l: Seq<u8>,
    h: Option<Seq<u8>>,
)
    requires
        within(k, Some(l), h),
        within(l, lo, hi),
        h == hi || (h matches Some(x) && within(x, lo, hi)),
        lo matches Some(x) ==> x.len() >= 8,
        hi matches Some(x) ==> x.len() >= 8,
    ensures
        within(k, lo, hi),
{
    if let Some(x) = lo {
        law_key_order_is_transitive(x, l, k);
    }
    if h != hi {
        if let Some(y) = hi {
            law_key_order_is_transitive(k, h->0, y);
        }
    }
}

/// The records of a tree in order are in order.
pub proof fn lemma_recs_sorted(t: Tree, lo: Option<Seq<u8>>, hi: Option<Seq<u8>>)
    requires
        ordered(t, lo, hi),
        lo matches Some(x) ==> x.len() >= 8,
        hi matches Some(x) ==> x.len() >= 8,
    ensures
        sorted(recs(t)),
        all_within(recs(t), lo, hi),
    decreases t, 1int, 0int,
{
    match t {
        Tree::Leaf { p, n } => {
            lemma_leaf_order(p, n, lo, hi);
            let r = recs(t);
            assert forall|i: int| 0 <= i < r.len() implies within((#[trigger] r[i]).0, lo, hi)
                && r[i].0.len() >= 8 by {
                assert(within(records(n, 0, 0)[i].0, lo, hi));
            }
            assert forall|i: int, j: int| 0 <= i < j < r.len() implies key_sign(
                (#[trigger] r[i]).0,
                (#[trigger] r[j]).0,
            ) < 0 by {
                assert(key_sign(records(n, 0, 0)[i].0, records(n, 0, 0)[j].0) < 0);
            }
        },
        Tree::Inner { .. } => {
            lemma_recs_sorted_from(t, lo, hi, 0);
        },
    }
}

proof fn lemma_recs_sorted_from(t: Tree, lo: Option<Seq<u8>>, hi: Option<Seq<u8>>, i: int)
    requires
        t is Inner,
        ordered(t, lo, hi),
        0 <= i <= t->kids.len(),
        lo matches Some(x) ==> x.len() >= 8,
        hi matches Some(x) ==> x.len() >= 8,
    ensures
        sorted(recs_from(t->kids, i)),
        all_within(recs_from(t->kids, i), lo, hi),
        i < t->kids.len() ==> all_within(recs_from(t->kids, i), Some(sep(t.node(), i)), hi),
    decreases t, 0int, t->kids.len() - i,
{
    let kids = t->kids;
    let n = t.node();
    if i < kids.len() {
        lemma_child_order(t, lo, hi, i);
        let l = sep(n, i);
        let h = upper(n, i, hi);
        if i + 1 < kids.len() {
            lemma_child_order(t, lo, hi, i + 1);
        }
        lemma_recs_sorted(kids[i], Some(l), h);
        lemma_recs_sorted_from(t, lo, hi, i + 1);
        let a = recs(kids[i]);
        let b = recs_from(kids, i + 1);
        let r = recs_from(kids, i);
        assert(r == a + b);
        assert forall|j: int| 0 <= j < r.len() implies within((#[trigger] r[j]).0, lo, hi)
            && within(r[j].0, Some(l), hi) && r[j].0.len() >= 8 by {
            if j < a.len() {
                assert(r[j] == a[j]);
                lemma_within_wider(a[j].0, lo, hi, l, h);
                if h != hi {
                    if let Some(y) = hi {
                        law_key_order_is_transitive(a[j].0, h->0, y);
                    }
                }
            } else {
                assert(r[j] == b[j - a.len()]);
                law_key_order_is_transitive(l, sep(n, i + 1), r[j].0);
            }
        }
        assert forall|x: int, y: int| 0 <= x < y < r.len() implies key_sign(
            (#[trigger] r[x]).0,
            (#[trigger] r[y]).0,
        ) < 0 by {
            if y < a.len() {
                assert(r[x] == a[x] && r[y] == a[y]);
            } else if x >= a.len() {
                assert(r[x] == b[x - a.len()] && r[y] == b[y - a.len()]);
            } else {
                assert(r[x] == a[x] && r[y] == b[y - a.len()]);
                law_key_order_is_transitive(a[x].0, sep(n, i + 1), r[y].0);
            }
        }
    }
}

/// Records that belong to nothing else than `(oid, j_type)`.
pub open spec fn all_of(r: Seq<Found>, oid: u64, j_type: u8) -> bool {
    forall|i: int| 0 <= i < r.len() ==> cat_rank((#[trigger] r[i]).0, oid, j_type) == 0
}

/// Records of one object and type are no records of another.
pub proof fn lemma_picked_others(r: Seq<Found>, oid: u64, j_type: u8, o: u64, j: u8)
    requires
        all_of(r, oid, j_type),
        (o, j) != (oid, j_type),
    ensures
        picked(r, o, j) == Seq::<Found>::empty(),
{
    assert forall|i: int| 0 <= i < r.len() implies cat_rank((#[trigger] r[i]).0, o, j) != 0 by {
        assert(cat_rank(r[i].0, oid, j_type) == 0);
    }
    lemma_picked_none(r, o, j);
}

/// Records of one object and type are all picked.
pub proof fn lemma_picked_all(r: Seq<Found>, oid: u64, j_type: u8)
    requires
        all_of(r, oid, j_type),
    ensures
        picked(r, oid, j_type) == r,
    decreases r.len(),
{
    if r.len() == 0 {
        lemma_picked_none(r, oid, j_type);
        assert(r =~= Seq::empty());
    } else {
        let a = r.drop_last();
        assert(r =~= a + seq![r.last()]);
        assert forall|i: int| 0 <= i < a.len() implies cat_rank((#[trigger] a[i]).0, oid, j_type)
            == 0 by {
            assert(a[i] == r[i]);
        }
        lemma_picked_all(a, oid, j_type);
        assert(cat_rank(r[r.len() - 1].0, oid, j_type) == 0);
        lemma_picked_one(r.last(), oid, j_type);
        lemma_picked_add(a, seq![r.last()], oid, j_type);
    }
}

/// What of the records changes when those of `(oid, j_type)` in the middle are
/// exchanged for others.
pub proof fn lemma_patch(
    a: Seq<Found>,
    x: Seq<Found>,
    y: Seq<Found>,
    b: Seq<Found>,
    oid: u64,
    j_type: u8,
)
    requires
        all_of(x, oid, j_type),
        all_of(y, oid, j_type),
    ensures
        forall|o: u64, j: u8|
            (o, j) != (oid, j_type) ==> #[trigger] picked(a + y + b, o, j) == picked(
                a + x + b,
                o,
                j,
            ),
        picked(a + x + b, oid, j_type) == picked(a, oid, j_type) + x + picked(b, oid, j_type),
        picked(a + y + b, oid, j_type) == picked(a, oid, j_type) + y + picked(b, oid, j_type),
{
    assert forall|o: u64, j: u8| (o, j) != (oid, j_type) implies #[trigger] picked(
        a + y + b,
        o,
        j,
    ) == picked(a + x + b, o, j) by {
        lemma_picked_others(x, oid, j_type, o, j);
        lemma_picked_others(y, oid, j_type, o, j);
        lemma_picked_add(a, x, o, j);
        lemma_picked_add(a + x, b, o, j);
        lemma_picked_add(a, y, o, j);
        lemma_picked_add(a + y, b, o, j);
    }
    lemma_picked_all(x, oid, j_type);
    lemma_picked_all(y, oid, j_type);
    lemma_picked_add(a, x, oid, j_type);
    lemma_picked_add(a + x, b, oid, j_type);
    lemma_picked_add(a, y, oid, j_type);
    lemma_picked_add(a + y, b, oid, j_type);
}

/// Among sorted records there is one of a single type at most.
pub proof fn lemma_one_single(a: Seq<Found>, x: Found, b: Seq<Found>, oid: u64, j_type: u8)
    requires
        sorted(a + seq![x] + b),
        single(j_type),
        cat_rank(x.0, oid, j_type) == 0,
    ensures
        picked(a, oid, j_type) == Seq::<Found>::empty(),
        picked(b, oid, j_type) == Seq::<Found>::empty(),
{
    let r = a + seq![x] + b;
    let c = a.len() as int;
    assert(r[c] == x);
    assert forall|i: int| 0 <= i < a.len() implies cat_rank((#[trigger] a[i]).0, oid, j_type)
        != 0 by {
        assert(r[i] == a[i]);
        assert(key_sign(r[i].0, r[c].0) < 0);
        if cat_rank(a[i].0, oid, j_type) == 0 {
            lemma_single(a[i].0, x.0, oid, j_type);
        }
    }
    assert forall|i: int| 0 <= i < b.len() implies cat_rank((#[trigger] b[i]).0, oid, j_type)
        != 0 by {
        assert(r[c + 1 + i] == b[i]);
        assert(key_sign(r[c].0, r[c + 1 + i].0) < 0);
        if cat_rank(b[i].0, oid, j_type) == 0 {
            lemma_single(x.0, b[i].0, oid, j_type);
        }
    }
    lemma_picked_none(a, oid, j_type);
    lemma_picked_none(b, oid, j_type);
}

} // verus!
