//! What a volume shows after an entry was created.

use crate::apfs::btree::node::NodeView;
use crate::apfs::btree::search::Found;
use crate::apfs::bytes::group_bytes_len;
use crate::apfs::catalog::edit::{
    edit_inode, inc_edit, insert_drec, insert_record, lemma_with_fixed, with_counter,
};
use crate::apfs::catalog::query::{entry_with, named_drec};
use crate::apfs::catalog::records::{
    drec_bytes, drec_key, drec_key_outcome, inode_of, inode_value, key_head,
    law_built_inode_has_size, law_drec_key_keeps_name, law_drec_roundtrip, law_key_head_roundtrip,
    DrecVal, InodeVal, JDstream, J_TYPE_DIR_REC, J_TYPE_FILE_EXTENT, J_TYPE_INODE, ROOT_DIR_RECORD,
};
use crate::apfs::error::Fault;
use crate::apfs::extents::fork_prefix;
use crate::apfs::packed::KIND_UNIT;
use crate::apfs::path::{
    base_part, components, law_names_of_parent_and_entry, parent_part, parent_path, trimmed,
};
use crate::apfs::text::msg_str;
use crate::apfs::volume::commit::{lemma_commit, tree_after};
use crate::apfs::volume::create::{new_drec, new_inode};
use crate::apfs::volume::effects::{
    lemma_commit_file, lemma_edit_inode, lemma_hit_leaf, lemma_untouched, spans_clear,
};
use crate::apfs::volume::laws::files_kept;
use crate::apfs::volume::model::{
    drec_in, entries_in, extents_in, inode_in, law_volume_shows_records,
};
use crate::apfs::volume::names::{
    dir_walk, lemma_has_name_cat, lemma_named_among, lemma_no_name, lemma_walk_entry,
    lemma_walk_kept, lemma_walk_new, names_entry,
};
use crate::apfs::volume::place::{lemma_insert_record, reaches};
use crate::apfs::volume::remount::{follows, lemma_commit_follows, lemma_data_then};
use crate::apfs::volume::state::VolumeView;
use crate::apfs::volume::steps::{only, recs_with, touched_ok};
use crate::apfs::volume::tree::{law_lookups_find_records, picked, recs, Tree};
use vstd::prelude::*;

verus! {

/// The inode of a directory with one more entry.
pub open spec fn counted(i: InodeVal) -> InodeVal {
    with_counter(
        i,
        if i.nchildren_or_nlink == i32::MAX {
            i32::MAX as int
        } else {
            i.nchildren_or_nlink + 1
        },
    )
}

/// What holds of the records after a directory record was put in: its name is
/// found, and other names as before.
pub open spec fn entry_added(
    r: Seq<Found>,
    q: Seq<Found>,
    dir: u64,
    name: Seq<char>,
    d: DrecVal,
) -> bool {
    &&& drec_in(q, dir, name) == Ok::<DrecVal, Fault>(d)
    &&& forall|o: u64, nm: Seq<char>|
        (o, nm) != (dir, name) ==> #[trigger] drec_in(q, o, nm) == drec_in(r, o, nm)
}

/// A directory record is put at its place.
pub proof fn lemma_put_drec(
    v: VolumeView,
    t: Tree,
    m: Set<u64>,
    s: Seq<(u64, NodeView)>,
    p: u64,
    dir: u64,
    name: Seq<char>,
    h: u32,
    d: DrecVal,
) -> (r: (Seq<Found>, Seq<Found>))
    requires
        v.sound(t, m),
        touched_ok(t, s),
        dir < KIND_UNIT,
        drec_key_outcome(dir, name, h) is Ok,
        v.key_leaf(drec_key(dir, name, h)) == Ok::<u64, Fault>(p),
        reaches(t, drec_key(dir, name, h)),
        forall|i: int| 0 <= i < name.len() ==> (#[trigger] name[i]) != '\0',
        v.put_drec(s, p, dir, name, h, d) is Ok,
        !names_entry(recs_with(t, s), dir, name),
    ensures
        touched_ok(t, v.put_drec(s, p, dir, name, h, d)->Ok_0),
        only(
            recs_with(t, s),
            recs_with(t, v.put_drec(s, p, dir, name, h, d)->Ok_0),
            dir,
            J_TYPE_DIR_REC,
        ),
        entry_added(
            recs_with(t, s),
            recs_with(t, v.put_drec(s, p, dir, name, h, d)->Ok_0),
            dir,
            name,
            d,
        ),
        picked(recs_with(t, s), dir, J_TYPE_DIR_REC) == r.0 + r.1,
        picked(recs_with(t, v.put_drec(s, p, dir, name, h, d)->Ok_0), dir, J_TYPE_DIR_REC) == r.0
            + seq![(drec_key(dir, name, h), drec_bytes(d), p)] + r.1,
{
    broadcast use group_bytes_len;

    let key = drec_key(dir, name, h);
    let val = drec_bytes(d);
    let f = |n: NodeView| insert_drec(n, dir, name, h, d);
    assert forall|n: NodeView| #[trigger] f(n) == insert_record(n, key, val) by {}
    let rest = key.skip(8);
    assert(key =~= key_head(dir, J_TYPE_DIR_REC) + rest);
    law_key_head_roundtrip(dir, J_TYPE_DIR_REC, rest);
    let (x, y) = lemma_insert_record(v, t, m, s, p, key, val, dir, J_TYPE_DIR_REC, f);
    let u = v.put_drec(s, p, dir, name, h, d)->Ok_0;
    let r = recs_with(t, s);
    let q = recs_with(t, u);
    let new = (key, val, p);
    law_drec_key_keeps_name(dir, name, h);
    law_drec_roundtrip(d);
    lemma_has_name_cat(x, y, name);
    lemma_named_among(x, new, y, name);
    assert forall|o: u64, nm: Seq<char>| (o, nm) != (dir, name) implies #[trigger] drec_in(
        q,
        o,
        nm,
    ) == drec_in(r, o, nm) by {
        if o == dir {
            lemma_named_among(x, new, y, nm);
        } else {
            assert(picked(q, o, J_TYPE_DIR_REC) == picked(r, o, J_TYPE_DIR_REC));
        }
    }
    (x, y)
}

/// An inode is put at its place.
pub proof fn lemma_put_inode(
    v: VolumeView,
    t: Tree,
    m: Set<u64>,
    s: Seq<(u64, NodeView)>,
    p: u64,
    oid: u64,
    i: InodeVal,
)
    requires
        v.sound(t, m),
        touched_ok(t, s),
        oid < KIND_UNIT,
        v.key_leaf(key_head(oid, J_TYPE_INODE)) == Ok::<u64, Fault>(p),
        reaches(t, key_head(oid, J_TYPE_INODE)),
        v.put_inode(s, p, oid, inode_value(i, None)) is Ok,
        i.dstream_size is None,
    ensures
        touched_ok(t, v.put_inode(s, p, oid, inode_value(i, None))->Ok_0),
        only(
            recs_with(t, s),
            recs_with(t, v.put_inode(s, p, oid, inode_value(i, None))->Ok_0),
            oid,
            J_TYPE_INODE,
        ),
        inode_in(recs_with(t, s), oid) is Err,
        picked(recs_with(t, s), oid, J_TYPE_INODE).len() == 0,
        inode_in(recs_with(t, v.put_inode(s, p, oid, inode_value(i, None))->Ok_0), oid) == Ok::<
            InodeVal,
            Fault,
        >(i),
{
    broadcast use group_bytes_len;

    let key = key_head(oid, J_TYPE_INODE);
    let val = inode_value(i, None);
    let f = |n: NodeView| insert_record(n, key_head(oid, J_TYPE_INODE), val);
    assert(key =~= key + Seq::<u8>::empty());
    law_key_head_roundtrip(oid, J_TYPE_INODE, Seq::<u8>::empty());
    let (x, y) = lemma_insert_record(v, t, m, s, p, key, val, oid, J_TYPE_INODE, f);
    law_built_inode_has_size(
        i,
        JDstream {
            size: 0,
            alloced_size: 0,
            default_crypto_id: 0,
            total_bytes_written: 0,
            total_bytes_read: 0,
        },
    );
    assert(x + y =~= Seq::<Found>::empty());
    assert(x + seq![(key, val, p)] + y =~= seq![(key, val, p)]);
}

/// A child is counted in the inode of a directory.
pub proof fn lemma_count_in(
    v: VolumeView,
    t: Tree,
    m: Set<u64>,
    s: Seq<(u64, NodeView)>,
    p: u64,
    dir: u64,
)
    requires
        v.sound(t, m),
        touched_ok(t, s),
        v.record_leaf(dir, J_TYPE_INODE) == Ok::<u64, Fault>(p),
        v.count_in(s, p, dir) is Ok,
    ensures
        touched_ok(t, v.count_in(s, p, dir)->Ok_0),
        only(recs_with(t, s), recs_with(t, v.count_in(s, p, dir)->Ok_0), dir, J_TYPE_INODE),
        inode_in(recs_with(t, s), dir) matches Ok(i) && inode_in(
            recs_with(t, v.count_in(s, p, dir)->Ok_0),
            dir,
        ) == Ok::<InodeVal, Fault>(counted(i)),
{
    let not_a_leaf = "inc_inode_counter_in_node: target is not a leaf"@;
    let f = |n: NodeView|
        edit_inode(
            n,
            dir,
            "inc_inode_counter_in_node: target is not a leaf"@,
            inc_edit(),
        );
    lemma_hit_leaf(v, t, dir, J_TYPE_INODE, p);
    let (k, old, new) = lemma_edit_inode(v, t, m, s, p, dir, not_a_leaf, inc_edit(), f);
    let i = inode_of(old);
    lemma_with_fixed(old, counted(i));
}

/// What holds of the records after an entry was created: its inode and its
/// name are found, its directory counts it, and all else is as before.
pub open spec fn entry_created(
    r: Seq<Found>,
    q: Seq<Found>,
    oid: u64,
    i: InodeVal,
    dir: u64,
    name: Seq<char>,
    d: DrecVal,
) -> bool {
    &&& entry_added(r, q, dir, name, d)
    &&& dir != oid
    &&& inode_in(r, oid) is Err
    &&& inode_in(q, oid) == Ok::<InodeVal, Fault>(i)
    &&& inode_in(r, dir) matches Ok(was) && inode_in(q, dir) == Ok::<InodeVal, Fault>(counted(was))
    &&& forall|o: u64| o != oid && o != dir ==> #[trigger] inode_in(q, o) == inode_in(r, o)
    &&& forall|o: u64| #[trigger] extents_in(q, o) == extents_in(r, o)
}

pub proof fn lemma_created(
    v: VolumeView,
    t: Tree,
    m: Set<u64>,
    oid: u64,
    dir: u64,
    name: Seq<char>,
    is_dir: bool,
    now: i64,
) -> (r: (Seq<Found>, Found, Seq<Found>))
    requires
        v.sound(t, m),
        oid < KIND_UNIT,
        dir < KIND_UNIT,
        forall|i: int| 0 <= i < name.len() ==> (#[trigger] name[i]) != '\0',
        v.hashed_key(dir, name) matches Ok((_, key)) ==> reaches(t, key),
        reaches(t, key_head(oid, J_TYPE_INODE)),
        !names_entry(recs(t), dir, name),
        v.created(oid, dir, name, is_dir, now) is Ok,
    ensures
        ({
            let s = v.created(oid, dir, name, is_dir, now)->Ok_0;
            let q = recs_with(t, s);
            let d = new_drec(oid, is_dir, now);
            &&& touched_ok(t, s)
            &&& entry_created(
                recs(t),
                q,
                oid,
                new_inode(dir, oid, is_dir, now),
                dir,
                name,
                d,
            )
            &&& picked(recs(t), dir, J_TYPE_DIR_REC) == r.0 + r.2
            &&& picked(q, dir, J_TYPE_DIR_REC) == r.0 + seq![r.1] + r.2
            &&& named_drec(r.1) == Some((name, d))
            &&& forall|o: u64|
                o != dir ==> #[trigger] picked(q, o, J_TYPE_DIR_REC) == picked(
                    recs(t),
                    o,
                    J_TYPE_DIR_REC,
                )
        }),
{
    let (h, key) = v.hashed_key(dir, name)->Ok_0;
    let (a, b, c) = v.places(oid, dir, key)->Ok_0;
    let i = new_inode(dir, oid, is_dir, now);
    let d = new_drec(oid, is_dir, now);
    lemma_untouched(v, t, m);
    let s0: Seq<(u64, NodeView)> = seq![];
    let s1 = v.put_inode(s0, a, oid, inode_value(i, None))->Ok_0;
    let s2 = v.put_drec(s1, b, dir, name, h, d)->Ok_0;
    let s3 = v.count_in(s2, c, dir)->Ok_0;
    let r0 = recs(t);
    let r1 = recs_with(t, s1);
    let r2 = recs_with(t, s2);
    let r3 = recs_with(t, s3);
    lemma_put_inode(v, t, m, s0, a, oid, i);
    assert(picked(r1, dir, J_TYPE_DIR_REC) == picked(r0, dir, J_TYPE_DIR_REC));
    assert(key == drec_key(dir, name, h));
    let (x, y) = lemma_put_drec(v, t, m, s1, b, dir, name, h, d);
    lemma_count_in(v, t, m, s2, c, dir);
    law_drec_key_keeps_name(dir, name, h);
    law_drec_roundtrip(d);
    let f = (key, drec_bytes(d), b);
    assert(picked(r3, dir, J_TYPE_DIR_REC) == picked(r2, dir, J_TYPE_DIR_REC));
    lemma_parent_has_inode(v, t, dir, c);
    lemma_created_records(r0, r1, r2, r3, oid, i, dir, name, d);
    assert forall|o: u64| o != dir implies #[trigger] picked(r3, o, J_TYPE_DIR_REC) == picked(
        r0,
        o,
        J_TYPE_DIR_REC,
    ) by {
        assert(picked(r2, o, J_TYPE_DIR_REC) == picked(r1, o, J_TYPE_DIR_REC));
        assert(picked(r1, o, J_TYPE_DIR_REC) == picked(r0, o, J_TYPE_DIR_REC));
    }
    (x, f, y)
}

/// The steps of creating an entry, on the records alone.
proof fn lemma_created_records(
    r0: Seq<Found>,
    r1: Seq<Found>,
    r2: Seq<Found>,
    r3: Seq<Found>,
    oid: u64,
    i: InodeVal,
    dir: u64,
    name: Seq<char>,
    d: DrecVal,
)
    requires
        only(r0, r1, oid, J_TYPE_INODE),
        only(r1, r2, dir, J_TYPE_DIR_REC),
        only(r2, r3, dir, J_TYPE_INODE),
        inode_in(r0, oid) is Err,
        inode_in(r1, oid) == Ok::<InodeVal, Fault>(i),
        entry_added(r1, r2, dir, name, d),
        inode_in(r2, dir) matches Ok(was) && inode_in(r3, dir) == Ok::<InodeVal, Fault>(
            counted(was),
        ),
        dir != oid,
    ensures
        entry_created(r0, r3, oid, i, dir, name, d),
{
    assert(picked(r2, dir, J_TYPE_INODE) == picked(r1, dir, J_TYPE_INODE));
    assert(picked(r2, oid, J_TYPE_INODE) == picked(r1, oid, J_TYPE_INODE));
    assert(picked(r3, oid, J_TYPE_INODE) == picked(r2, oid, J_TYPE_INODE));
    assert(picked(r1, dir, J_TYPE_INODE) == picked(r0, dir, J_TYPE_INODE));
    assert forall|o: u64| o != oid && o != dir implies #[trigger] inode_in(r3, o) == inode_in(
        r0,
        o,
    ) by {
        assert(picked(r3, o, J_TYPE_INODE) == picked(r2, o, J_TYPE_INODE));
        assert(picked(r2, o, J_TYPE_INODE) == picked(r1, o, J_TYPE_INODE));
        assert(picked(r1, o, J_TYPE_INODE) == picked(r0, o, J_TYPE_INODE));
    }
    assert forall|o: u64| #[trigger] extents_in(r3, o) == extents_in(r0, o) by {
        assert(picked(r3, o, J_TYPE_FILE_EXTENT) == picked(r2, o, J_TYPE_FILE_EXTENT));
        assert(picked(r2, o, J_TYPE_FILE_EXTENT) == picked(r1, o, J_TYPE_FILE_EXTENT));
        assert(picked(r1, o, J_TYPE_FILE_EXTENT) == picked(r0, o, J_TYPE_FILE_EXTENT));
    }
    assert(picked(r3, dir, J_TYPE_DIR_REC) == picked(r2, dir, J_TYPE_DIR_REC));
    assert forall|o: u64, nm: Seq<char>| (o, nm) != (dir, name) implies #[trigger] drec_in(
        r3,
        o,
        nm,
    ) == drec_in(r0, o, nm) by {
        assert(picked(r3, o, J_TYPE_DIR_REC) == picked(r2, o, J_TYPE_DIR_REC));
        assert(drec_in(r2, o, nm) == drec_in(r1, o, nm));
        assert(picked(r1, o, J_TYPE_DIR_REC) == picked(r0, o, J_TYPE_DIR_REC));
    }
}

/// Where a lookup finds the inode of a directory, the catalog has records of
/// it.
proof fn lemma_parent_has_inode(v: VolumeView, t: Tree, dir: u64, p: u64)
    requires
        v.has_catalog(t),
        v.record_leaf(dir, J_TYPE_INODE) == Ok::<u64, Fault>(p),
    ensures
        picked(recs(t), dir, J_TYPE_INODE).len() > 0,
{
    law_lookups_find_records(v, t, dir, J_TYPE_INODE);
}

/// A record of a directory is listed.
proof fn lemma_listed_entry(r: Seq<Found>, found: Seq<Found>, i: int, j: int)
    requires
        0 <= i <= j < found.len(),
        named_drec(found[j]) is Some,
    ensures
        ({
            let (name, d) = named_drec(found[j])->0;
            entries_in(r, found, i).contains(entry_with(name, d, inode_in(r, d.file_id)))
        }),
    decreases j - i,
{
    let (name, d) = named_drec(found[j])->0;
    let e = entry_with(name, d, inode_in(r, d.file_id));
    let all = entries_in(r, found, i);
    if i == j {
        assert(all[0] == e);
    } else {
        lemma_listed_entry(r, found, i + 1, j);
        let rest = entries_in(r, found, i + 1);
        let k = choose|k: int| 0 <= k < rest.len() && rest[k] == e;
        if named_drec(found[i]) is None {
            assert(all[k] == e);
        } else {
            assert(all[k + 1] == e);
        }
    }
}

/// The entry that a path is to get: its directory is reached through
/// directories, has no entry of the name yet, and what is put into the catalog
/// for it has a place there.
pub open spec fn can_create(v: VolumeView, t: Tree, path: Seq<char>) -> bool {
    let parent = parent_path(parent_part(trimmed(path)));
    let name = base_part(trimmed(path));
    &&& dir_walk(recs(t), components(parent), 0, ROOT_DIR_RECORD) matches Some(dir)
    &&& !names_entry(recs(t), dir, name)
    &&& dir < KIND_UNIT
    &&& v.next_obj_id < KIND_UNIT
    &&& forall|i: int| 0 <= i < name.len() ==> (#[trigger] name[i]) != '\0'
    &&& (v.hashed_key(dir, name) matches Ok((_, key)) ==> reaches(t, key))
    &&& reaches(t, key_head(v.next_obj_id, J_TYPE_INODE))
}

/// Nothing is created where something is, and the volume stays as it was.
pub proof fn law_taken_path_is_refused(
    v: VolumeView,
    path: Seq<char>,
    who: Seq<char>,
    is_dir: bool,
    now: i64,
)
    requires
        trimmed(path).len() > 0,
        v.parent_of(path) is Ok,
        v.resolve(path) is Ok,
    ensures
        v.create(path, who, is_dir, now) == (
            Err::<u64, Fault>(
                Fault::Internal(msg_str(msg_str(who, ": '"@, path), "' already exists"@, ""@)),
            ),
            v,
        ),
{
    reveal(VolumeView::create);
}

/// An entry that was created is found under its path and listed in its
/// directory, the directory counts it, and a file is empty. What other paths
/// led to they still lead to, and where they led nowhere they lead to the new
/// entry or nowhere. Files have their extents and their bytes as before. Gives
/// the catalog afterwards.
pub proof fn law_create_is_shown(
    v: VolumeView,
    t: Tree,
    m: Set<u64>,
    path: Seq<char>,
    who: Seq<char>,
    is_dir: bool,
    now: i64,
) -> (u: Tree)
    requires
        v.sound(t, m),
        v.create(path, who, is_dir, now).0 is Ok,
        can_create(v, t, path),
    ensures
        ({
            let (r, w) = v.create(path, who, is_dir, now);
            let oid = v.next_obj_id;
            let dir = v.parent_of(path)->Ok_0;
            let i = new_inode(dir, oid, is_dir, now);
            &&& r == Ok::<u64, Fault>(oid)
            &&& w.sound(u, m)
            &&& w.next_obj_id == oid + 1
            &&& w.resolve(path) == Ok::<(u64, InodeVal), Fault>((oid, i))
            &&& w.directory(dir) matches Ok(list) && list.contains(
                entry_with(base_part(trimmed(path)), new_drec(oid, is_dir, now), Ok(i)),
            )
            &&& forall|q: Seq<char>|
                v.resolve(q) is Ok ==> #[trigger] w.resolve(q) == Ok::<(u64, InodeVal), Fault>(
                    (
                        (v.resolve(q)->Ok_0).0,
                        if (v.resolve(q)->Ok_0).0 == dir {
                            counted((v.resolve(q)->Ok_0).1)
                        } else {
                            (v.resolve(q)->Ok_0).1
                        },
                    ),
                )
            &&& picked(recs(t), oid, J_TYPE_DIR_REC).len() == 0 ==> forall|q: Seq<char>|
                (#[trigger] w.resolve(q) matches Ok((o, _)) ==> (o != oid ==> (v.resolve(q)
                    matches Ok((was, _)) && was == o)))
            &&& v.extents(oid) is Ok ==> w.contents(path) == Ok::<Seq<u8>, Fault>(seq![])
            &&& forall|o: u64| #[trigger] w.extents(o) == v.extents(o)
            &&& files_kept(v, w, t, m)
            &&& follows(v, t, w, u, m)
        }),
{
    reveal(VolumeView::create);
    let (res, w) = v.create(path, who, is_dir, now);
    let oid = v.next_obj_id;
    let parent = parent_path(parent_part(trimmed(path)));
    let name = base_part(trimmed(path));
    let v1 = VolumeView { next_obj_id: (v.next_obj_id + 1) as u64, ..v };
    assert(v1.sound(t, m));
    let dir = dir_walk(recs(t), components(parent), 0, ROOT_DIR_RECORD)->0;
    law_volume_shows_records(v, t, parent, 0);
    lemma_walk_entry(recs(t), components(parent), name, 0, ROOT_DIR_RECORD);
    assert(v.parent_of(path) == Ok::<u64, Fault>(dir));
    let i = new_inode(dir, oid, is_dir, now);
    let d = new_drec(oid, is_dir, now);
    assert(v1.hashed_key(dir, name) == v.hashed_key(dir, name));
    let (x, f, y) = lemma_created(v1, t, m, oid, dir, name, is_dir, now);
    let s = v1.created(oid, dir, name, is_dir, now)->Ok_0;
    lemma_commit(v1, t, m, s);
    let u = tree_after(t, s, v.nx);
    lemma_commit_follows(v1, t, m, s);
    lemma_data_then(v, v1, w, t, u, m);
    let r = recs(t);
    let q = recs(u);
    let g = |o: u64, x: InodeVal|
        if o == dir {
            counted(x)
        } else {
            x
        };
    lemma_no_name(picked(r, dir, J_TYPE_DIR_REC), name, 0);
    assert forall|o: u64, nm: Seq<char>| #[trigger] drec_in(r, o, nm) is Ok implies drec_in(
        q,
        o,
        nm,
    ) == drec_in(r, o, nm) by {
        assert((o, nm) != (dir, name));
    }
    assert forall|o: u64| #[trigger] inode_in(r, o) is Ok implies inode_in(q, o) == Ok::<
        InodeVal,
        Fault,
    >(g(o, inode_in(r, o)->Ok_0)) by {
        assert(o != oid);
        if o != dir {
            assert(inode_in(q, o) == inode_in(r, o));
        }
    }
    law_names_of_parent_and_entry(path);
    lemma_walk_kept(r, q, components(parent), 0, ROOT_DIR_RECORD, g);
    lemma_walk_entry(q, components(parent), name, 0, ROOT_DIR_RECORD);
    law_volume_shows_records(w, u, path, dir);
    assert forall|p: Seq<char>| v.resolve(p) is Ok implies #[trigger] w.resolve(p) == Ok::<
        (u64, InodeVal),
        Fault,
    >(
        (
            (v.resolve(p)->Ok_0).0,
            if (v.resolve(p)->Ok_0).0 == dir {
                counted((v.resolve(p)->Ok_0).1)
            } else {
                (v.resolve(p)->Ok_0).1
            },
        ),
    ) by {
        law_volume_shows_records(v, t, p, 0);
        law_volume_shows_records(w, u, p, 0);
        lemma_walk_kept(r, q, components(p), 0, ROOT_DIR_RECORD, g);
    }
    assert forall|o: u64| #[trigger] w.extents(o) == v.extents(o) by {
        law_volume_shows_records(v, t, path, o);
        law_volume_shows_records(w, u, path, o);
        assert(extents_in(q, o) == extents_in(r, o));
    }
    if picked(r, oid, J_TYPE_DIR_REC).len() == 0 {
        assert forall|p: Seq<char>| (#[trigger] w.resolve(p) matches Ok((o, _)) ==> (o != oid
            ==> (v.resolve(p) matches Ok((was, _)) && was == o))) by {
            law_volume_shows_records(v, t, p, 0);
            law_volume_shows_records(w, u, p, 0);
            assert forall|o: u64| #[trigger] inode_in(q, o) is Ok && o != oid implies inode_in(
                r,
                o,
            ) is Ok by {
                if o != dir {
                    assert(inode_in(q, o) == inode_in(r, o));
                }
            }
            lemma_walk_new(r, q, components(p), 0, ROOT_DIR_RECORD, dir, name, oid);
        }
    }
    let found = picked(q, dir, J_TYPE_DIR_REC);
    assert(found[x.len() as int] == f);
    lemma_listed_entry(q, found, 0, x.len() as int);
    assert forall|spans: Seq<(u64, u64, u64)>, limit: int|
        spans_clear(t, m, v.nx, v.block_size, spans) implies #[trigger] fork_prefix(
        w.disk,
        spans,
        0,
        limit,
    ) == fork_prefix(v.disk, spans, 0, limit) by {
        lemma_commit_file(v1, t, m, s, spans, limit);
    }
    u
}

/// Where something was created, the path has a name and a directory.
proof fn lemma_created_where(v: VolumeView, path: Seq<char>, who: Seq<char>, is_dir: bool, now: i64)
    requires
        v.create(path, who, is_dir, now).0 is Ok,
    ensures
        trimmed(path).len() > 0,
        v.parent_of(path) is Ok,
{
    reveal(VolumeView::create);
}

/// What was created is not created again.
pub proof fn law_created_path_is_taken(
    v: VolumeView,
    t: Tree,
    m: Set<u64>,
    path: Seq<char>,
    who: Seq<char>,
    is_dir: bool,
    now: i64,
    again: (Seq<char>, bool, i64),
)
    requires
        v.sound(t, m),
        v.create(path, who, is_dir, now).0 is Ok,
        can_create(v, t, path),
    ensures
        ({
            let w = v.create(path, who, is_dir, now).1;
            w.create(path, again.0, again.1, again.2) == (
                Err::<u64, Fault>(
                    Fault::Internal(
                        msg_str(msg_str(again.0, ": '"@, path), "' already exists"@, ""@),
                    ),
                ),
                w,
            )
        }),
{
    let w = v.create(path, who, is_dir, now).1;
    let u = law_create_is_shown(v, t, m, path, who, is_dir, now);
    lemma_created_where(v, path, who, is_dir, now);
    let parent = parent_path(parent_part(trimmed(path)));
    assert(v.resolve(parent) is Ok);
    assert(w.resolve(parent) is Ok);
    assert(w.parent_of(path) is Ok);
    law_taken_path_is_refused(w, path, again.0, again.1, again.2);
}

} // verus!
