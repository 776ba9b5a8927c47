//! That a change succeeds when there is room for it.

use crate::apfs::btree::node::NodeView;
use crate::apfs::btree::search::{node_at, Found, TREE_DEPTH_LIMIT};
use crate::apfs::bytes::group_bytes_len;
use crate::apfs::catalog::edit::{
    dec_edit, edit_inode, inc_edit, insert_drec, insert_record, lemma_with_fixed, reparent,
    size_edit, times_edit, with_times,
};
use crate::apfs::catalog::order::key_sign;
use crate::apfs::catalog::query::cat_rank;
use crate::apfs::catalog::records::{
    drec_bytes, drec_key, drec_name_outcome, inode_of, inode_outcome, inode_size, inode_value,
    key_head, law_key_head_roundtrip, mode_kind, DrecVal, INODE_DIR_TYPE, INODE_FILE_TYPE, InodeVal,
    J_TYPE_DIR_REC, J_TYPE_DSTREAM_ID, J_TYPE_FILE_EXTENT, J_TYPE_INODE, J_TYPE_XATTR,
    ROOT_DIR_RECORD,
};
use crate::apfs::error::Fault;
use crate::apfs::omap::omap_outcome;
use crate::apfs::packed::KIND_UNIT;
use crate::apfs::path::{
    base_part, components, law_names_of_parent_and_entry, parent_part, parent_path, trimmed,
};
use vstd::utf8::{encode_utf8, is_ascii_chars};
use crate::apfs::volume::commit::spot_ok;
use crate::apfs::volume::create::{new_drec, new_inode};
use crate::apfs::volume::effects::{
    lemma_edit_inode, lemma_hit_leaf, lemma_picked_from, lemma_untouched,
};
use crate::apfs::volume::frame::leaf_count;
use crate::apfs::volume::law_create::{
    can_create, counted, lemma_count_in, lemma_put_drec, lemma_put_inode,
};
use crate::apfs::volume::law_remove::{
    can_remove, lemma_count_off, lemma_delete_record, lemma_drop_drec, lemma_drop_extents,
    uncounted,
};
use crate::apfs::volume::law_rename::{can_move, can_rename, lemma_reparent};
use crate::apfs::volume::laws::lemma_walk_inode;
use crate::apfs::volume::leaves::child_for;
use crate::apfs::volume::model::{inode_in, law_volume_shows_records};
use crate::apfs::volume::names::{
    dir_walk, has_name, lemma_named_among, lemma_no_name, lemma_walk_entry, names_entry,
};
use crate::apfs::volume::place::{lemma_key_leaf, reaches};
use crate::apfs::volume::remove::{rmdir_no_drec, unlink_no_drec};
use crate::apfs::volume::rename::{drec_type, no_source, Move};
use crate::apfs::volume::state::VolumeView;
use crate::apfs::volume::steps::{recs_with, touched_ok};
use crate::apfs::volume::success::{
    can_commit, lemma_chain, lemma_commit_succeeds, lemma_delete_succeeds, lemma_drop_drec_succeeds,
    lemma_drop_extents_succeeds, lemma_edit_succeeds, lemma_insert_succeeds,
    lemma_reparent_succeeds, lemma_sized, lemma_still, lemma_still_room, no_worse, room_at, sized,
    unused,
};
use crate::apfs::volume::swap::lemma_recs_leaf;
use crate::apfs::volume::tree::{law_lookups_find_records, picked, recs, Tree};
use vstd::prelude::*;

verus! {

/// The bytes of key and value of a directory record.
pub open spec fn drec_room(name: Seq<char>) -> int {
    (31 + encode_utf8(name).len()) as int
}

/// The bytes of the keys and values of a new entry: an inode and a directory
/// record.
pub open spec fn entry_bytes(name: Seq<char>) -> int {
    100 + drec_room(name)
}

/// Whether the leaves that a new entry goes to take it: the leaf for the key of
/// its inode and the one for the key of its directory record, which may be the
/// same.
pub open spec fn room_for_entry(
    v: VolumeView,
    oid: u64,
    name: Seq<char>,
    key: Seq<u8>,
) -> bool {
    let a = v.key_leaf(key_head(oid, J_TYPE_INODE))->Ok_0;
    let b = v.key_leaf(key)->Ok_0;
    if a == b {
        room_at(v, seq![], a, entry_bytes(name), 2)
    } else {
        room_at(v, seq![], a, 100, 1) && room_at(v, seq![], b, drec_room(name), 1)
    }
}

/// The leaf for a key is found.
pub proof fn lemma_place(v: VolumeView, t: Tree, m: Set<u64>, key: Seq<u8>)
    requires
        v.sound(t, m),
        reaches(t, key),
        key.len() >= 8,
    ensures
        v.key_leaf(key) matches Ok(p) && leaf_count(t, p) > 0,
{
    assert forall|q: u64| #[trigger] leaf_count(t, q) <= 1 by {
        assert(spot_ok(t, m, v.nx, q));
    }
    lemma_key_leaf(v, t, TREE_DEPTH_LIMIT, key, None, None);
}

/// A child is counted in the inode of a directory.
proof fn lemma_count_in_succeeds(
    v: VolumeView,
    t: Tree,
    m: Set<u64>,
    s: Seq<(u64, NodeView)>,
    p: u64,
    dir: u64,
)
    requires
        v.sound(t, m),
        touched_ok(t, s),
        picked(recs_with(t, s), dir, J_TYPE_INODE) == picked(recs(t), dir, J_TYPE_INODE),
        v.record_leaf(dir, J_TYPE_INODE) == Ok::<u64, Fault>(p),
        inode_in(recs(t), dir) is Ok,
    ensures
        v.count_in(s, p, dir) matches Ok(u) && no_worse(v, t, s, u),
{
    law_lookups_find_records(v, t, dir, J_TYPE_INODE);
    lemma_hit_leaf(v, t, dir, J_TYPE_INODE, p);
    let was = picked(recs(t), dir, J_TYPE_INODE)[0].1;
    let not_a_leaf = "inc_inode_counter_in_node: target is not a leaf"@;
    let f = |n: NodeView|
        edit_inode(
            n,
            dir,
            "inc_inode_counter_in_node: target is not a leaf"@,
            inc_edit(),
        );
    lemma_with_fixed(was, counted(inode_of(was)));
    lemma_edit_succeeds(v, t, m, s, p, dir, not_a_leaf, inc_edit(), f);
}

/// The records of a new entry go into leaves with room for them.
proof fn lemma_created_succeeds(
    v: VolumeView,
    t: Tree,
    m: Set<u64>,
    oid: u64,
    dir: u64,
    name: Seq<char>,
    is_dir: bool,
    now: i64,
)
    requires
        v.sound(t, m),
        oid < KIND_UNIT,
        dir < KIND_UNIT,
        forall|i: int| 0 <= i < name.len() ==> (#[trigger] name[i]) != '\0',
        v.hashed_key(dir, name) matches Ok((_, key)) && reaches(t, key) && unused(
            recs(t),
            dir,
            J_TYPE_DIR_REC,
            key,
        ),
        reaches(t, key_head(oid, J_TYPE_INODE)),
        !names_entry(recs(t), dir, name),
        picked(recs(t), oid, J_TYPE_INODE).len() == 0,
        inode_in(recs(t), dir) is Ok,
        room_for_entry(v, oid, name, (v.hashed_key(dir, name)->Ok_0).1),
    ensures
        v.created(oid, dir, name, is_dir, now) matches Ok(s) && touched_ok(t, s) && sized(v, t, s),
{
    broadcast use group_bytes_len;

    let (h, key) = v.hashed_key(dir, name)->Ok_0;
    let head = key_head(oid, J_TYPE_INODE);
    let i = new_inode(dir, oid, is_dir, now);
    let val = inode_value(i, None);
    let d = new_drec(oid, is_dir, now);
    let s0: Seq<(u64, NodeView)> = seq![];
    lemma_untouched(v, t, m);
    lemma_sized(v, t, m);
    assert(head.len() == 8 && val.len() == 92);
    assert(key == drec_key(dir, name, h));
    assert(key.len() == 13 + encode_utf8(name).len());
    lemma_place(v, t, m, head);
    lemma_place(v, t, m, key);
    law_lookups_find_records(v, t, dir, J_TYPE_INODE);
    let (a, b, c) = v.places(oid, dir, key)->Ok_0;
    assert(v.places(oid, dir, key) is Ok);
    lemma_hit_leaf(v, t, dir, J_TYPE_INODE, c);
    law_key_head_roundtrip(oid, J_TYPE_INODE, seq![]);
    assert(head + seq![] =~= head);
    let f1 = |n: NodeView| insert_record(n, key_head(oid, J_TYPE_INODE), val);
    lemma_insert_succeeds(
        v,
        t,
        m,
        s0,
        a,
        head,
        val,
        oid,
        J_TYPE_INODE,
        f1,
        if a == b {
            entry_bytes(name)
        } else {
            100
        },
        if a == b {
            2
        } else {
            1
        },
    );
    let s1 = v.put_inode(s0, a, oid, val)->Ok_0;
    lemma_put_inode(v, t, m, s0, a, oid, i);
    let rest = key.subrange(8, key.len() as int);
    assert(key =~= key_head(dir, J_TYPE_DIR_REC) + rest);
    law_key_head_roundtrip(dir, J_TYPE_DIR_REC, rest);
    assert(cat_rank(key, dir, J_TYPE_DIR_REC) == 0);
    let f2 = |n: NodeView| insert_drec(n, dir, name, h, d);
    assert(drec_bytes(d).len() == 18);
    lemma_insert_succeeds(
        v,
        t,
        m,
        s1,
        b,
        key,
        drec_bytes(d),
        dir,
        J_TYPE_DIR_REC,
        f2,
        drec_room(name),
        1,
    );
    let s2 = v.put_drec(s1, b, dir, name, h, d)->Ok_0;
    lemma_put_drec(v, t, m, s1, b, dir, name, h, d);
    let was = picked(recs(t), dir, J_TYPE_INODE);
    assert(dir != oid);
    assert(picked(recs_with(t, s1), dir, J_TYPE_INODE) == was);
    assert(picked(recs_with(t, s2), dir, J_TYPE_INODE) == was);
    lemma_count_in_succeeds(v, t, m, s2, c, dir);
    lemma_still(v, t, s2, v.count_in(s2, c, dir)->Ok_0);
    lemma_count_in(v, t, m, s2, c, dir);
}

/// Whether a name can be the key of a directory record: it is ASCII, and not
/// too long.
pub open spec fn can_be_key(name: Seq<char>) -> bool {
    is_ascii_chars(name) && encode_utf8(name).len() <= 1022
}

/// Whether there is room for a new entry at `path`: its name can be a key, no
/// record has the keys of the new records, the leaves that they go to take
/// them, and the superblock of the commit has a place.
pub open spec fn room_to_create(v: VolumeView, t: Tree, path: Seq<char>) -> bool {
    let parent = parent_path(parent_part(trimmed(path)));
    let name = base_part(trimmed(path));
    let dir = dir_walk(recs(t), components(parent), 0, ROOT_DIR_RECORD)->0;
    let key = (v.hashed_key(dir, name)->Ok_0).1;
    &&& can_be_key(name)
    &&& unused(recs(t), dir, J_TYPE_DIR_REC, key)
    &&& picked(recs(t), v.next_obj_id, J_TYPE_INODE).len() == 0
    &&& room_for_entry(v, v.next_obj_id, name, key)
    &&& can_commit(v)
}

/// The leaf for a key does not depend on the next object id.
proof fn lemma_same_leaf(v: VolumeView, w: VolumeView, key: Seq<u8>, p: u64, levels: u32)
    requires
        w == (VolumeView { next_obj_id: w.next_obj_id, ..v }),
    ensures
        w.key_leaf_from(key, p, levels) == v.key_leaf_from(key, p, levels),
    decreases levels,
{
    if let Ok(n) = node_at(v.disk, p, v.block_size) {
        if !n.is_leaf() && levels > 0 {
            let oid = n.child_oid(child_for(n, key)->Ok_0)->Ok_0;
            let child = omap_outcome(v.disk, v.omap_root, v.block_size, oid)->Ok_0;
            lemma_same_leaf(v, w, key, child, (levels - 1) as u32);
        }
    }
}

/// An entry is created where there is room for it: under a directory that has
/// no such name, the call succeeds and gives the next object id.
pub proof fn law_create_succeeds(
    v: VolumeView,
    t: Tree,
    m: Set<u64>,
    path: Seq<char>,
    who: Seq<char>,
    is_dir: bool,
    now: i64,
)
    requires
        v.sound(t, m),
        trimmed(path).len() > 0,
        v.parent_of(path) is Ok,
        can_create(v, t, path),
        room_to_create(v, t, path),
    ensures
        v.create(path, who, is_dir, now).0 == Ok::<u64, Fault>(v.next_obj_id),
{
    reveal(VolumeView::create);
    let oid = v.next_obj_id;
    let parent = parent_path(parent_part(trimmed(path)));
    let name = base_part(trimmed(path));
    let v1 = VolumeView { next_obj_id: (oid + 1) as u64, ..v };
    let r = recs(t);
    let dir = dir_walk(r, components(parent), 0, ROOT_DIR_RECORD)->0;
    law_volume_shows_records(v, t, parent, 0);
    law_volume_shows_records(v, t, path, 0);
    lemma_walk_entry(r, components(parent), name, 0, ROOT_DIR_RECORD);
    law_names_of_parent_and_entry(path);
    lemma_no_name(picked(r, dir, J_TYPE_DIR_REC), name, 0);
    assert(v.parent_of(path) == Ok::<u64, Fault>(dir));
    assert(v.vacant(path, who) is Ok);
    assert(v1.sound(t, m));
    assert(v1.hashed_key(dir, name) == v.hashed_key(dir, name));
    let key = (v.hashed_key(dir, name)->Ok_0).1;
    assert(v.hashed_key(dir, name) is Ok);
    lemma_same_leaf(v, v1, key, v.catalog_root, TREE_DEPTH_LIMIT);
    lemma_same_leaf(v, v1, key_head(oid, J_TYPE_INODE), v.catalog_root, TREE_DEPTH_LIMIT);
    lemma_created_succeeds(v1, t, m, oid, dir, name, is_dir, now);
    lemma_commit_succeeds(v1, t, m, v1.created(oid, dir, name, is_dir, now)->Ok_0);
}

/// The inode of an object is changed and committed, when its value can be.
proof fn lemma_update_succeeds(
    v: VolumeView,
    t: Tree,
    m: Set<u64>,
    oid: u64,
    not_a_leaf: Seq<char>,
    e: spec_fn(Seq<u8>) -> Result<Seq<u8>, Fault>,
    f: spec_fn(NodeView) -> (Result<int, Fault>, NodeView),
)
    requires
        v.sound(t, m),
        can_commit(v),
        forall|n: NodeView| #[trigger] f(n) == edit_inode(n, oid, not_a_leaf, e),
        picked(recs(t), oid, J_TYPE_INODE).len() > 0,
        ({
            let was = picked(recs(t), oid, J_TYPE_INODE)[0].1;
            e(was) matches Ok(w) && w.len() == was.len()
        }),
    ensures
        v.update_inode(oid, f).0 is Ok,
{
    let s0: Seq<(u64, NodeView)> = seq![];
    lemma_untouched(v, t, m);
    lemma_sized(v, t, m);
    law_lookups_find_records(v, t, oid, J_TYPE_INODE);
    let p = picked(recs(t), oid, J_TYPE_INODE)[0].2;
    lemma_hit_leaf(v, t, oid, J_TYPE_INODE, p);
    lemma_edit_succeeds(v, t, m, s0, p, oid, not_a_leaf, e, f);
    let (k, old, new) = lemma_edit_inode(v, t, m, s0, p, oid, not_a_leaf, e, f);
    lemma_still(v, t, s0, v.change(s0, p, f).1);
    lemma_commit_succeeds(v, t, m, v.change(s0, p, f).1);
}

/// The times of what a path names can be set.
pub proof fn law_set_times_succeeds(
    v: VolumeView,
    t: Tree,
    m: Set<u64>,
    path: Seq<char>,
    create_time: Option<i64>,
    modify_time: Option<i64>,
    change_time: Option<i64>,
    access_time: Option<i64>,
)
    requires
        v.sound(t, m),
        v.resolve(path) is Ok,
        can_commit(v),
    ensures
        v.set_times(path, create_time, modify_time, change_time, access_time).0 is Ok,
{
    let (oid, i) = v.resolve(path)->Ok_0;
    law_volume_shows_records(v, t, path, 0);
    lemma_walk_inode(recs(t), components(path), 0, ROOT_DIR_RECORD);
    let not_a_leaf = "set_inode_times_in_node: target is not a leaf"@;
    let f = |n: NodeView|
        edit_inode(
            n,
            oid,
            "set_inode_times_in_node: target is not a leaf"@,
            times_edit(create_time, modify_time, change_time, access_time),
        );
    let was = picked(recs(t), oid, J_TYPE_INODE)[0].1;
    let e = times_edit(create_time, modify_time, change_time, access_time);
    lemma_with_fixed(
        was,
        with_times(inode_of(was), create_time, modify_time, change_time, access_time),
    );
    lemma_update_succeeds(v, t, m, oid, not_a_leaf, e, f);
}

/// A file that keeps its size in a data stream field can be cut to any size
/// up to that one.
pub proof fn law_set_size_succeeds(
    v: VolumeView,
    t: Tree,
    m: Set<u64>,
    path: Seq<char>,
    new_size: u64,
)
    requires
        v.sound(t, m),
        v.resolve(path) matches Ok((_, i)) && mode_kind(i.mode) == INODE_FILE_TYPE
            && i.dstream_size is Some && new_size <= inode_size(i),
        can_commit(v),
    ensures
        v.set_size(path, new_size).0 is Ok,
{
    let (oid, i) = v.resolve(path)->Ok_0;
    law_volume_shows_records(v, t, path, 0);
    lemma_walk_inode(recs(t), components(path), 0, ROOT_DIR_RECORD);
    let not_a_leaf = "set_inode_dstream_size_in_node: target is not a leaf"@;
    let f = |n: NodeView|
        edit_inode(
            n,
            oid,
            "set_inode_dstream_size_in_node: target is not a leaf"@,
            size_edit(oid, new_size),
        );
    lemma_update_succeeds(v, t, m, oid, not_a_leaf, size_edit(oid, new_size), f);
}

/// A name that records have is that of one of them.
proof fn lemma_name_at(found: Seq<Found>, name: Seq<char>, i: int) -> (j: int)
    requires
        has_name(found, name, i),
    ensures
        i <= j < found.len(),
        drec_name_outcome(found[j].0) == Ok::<Seq<char>, Fault>(name),
    decreases found.len() - i,
{
    if drec_name_outcome(found[i].0) == Ok::<Seq<char>, Fault>(name) {
        i
    } else {
        lemma_name_at(found, name, i + 1)
    }
}

/// The directory record of a name that a directory has is taken out.
proof fn lemma_drop_succeeds(
    v: VolumeView,
    t: Tree,
    m: Set<u64>,
    dir: u64,
    name: Seq<char>,
    missing: Fault,
)
    requires
        v.sound(t, m),
        names_entry(recs(t), dir, name),
    ensures
        v.drop_drec(dir, name, missing) matches Ok(s) && no_worse(v, t, seq![], s),
{
    let found = picked(recs(t), dir, J_TYPE_DIR_REC);
    law_lookups_find_records(v, t, dir, J_TYPE_DIR_REC);
    lemma_untouched(v, t, m);
    let j = lemma_name_at(found, name, 0);
    assert forall|k: int| 0 <= k < found.len() implies leaf_count(t, (#[trigger] found[k]).2)
        > 0 by {
        let c = lemma_picked_from(recs(t), dir, J_TYPE_DIR_REC, k);
        lemma_recs_leaf(t, c);
    }
    lemma_drop_drec_succeeds(v, t, m, seq![], found, 0, j, dir, name);
}

/// A child is counted off in a directory that counts one.
proof fn lemma_count_off_succeeds(
    v: VolumeView,
    t: Tree,
    m: Set<u64>,
    s: Seq<(u64, NodeView)>,
    p: u64,
    dir: u64,
)
    requires
        v.sound(t, m),
        touched_ok(t, s),
        picked(recs_with(t, s), dir, J_TYPE_INODE) == picked(recs(t), dir, J_TYPE_INODE),
        v.record_leaf(dir, J_TYPE_INODE) == Ok::<u64, Fault>(p),
        inode_in(recs(t), dir) matches Ok(i) && i.nchildren_or_nlink > 0,
    ensures
        v.count_off(s, p, dir) matches Ok(u) && no_worse(v, t, s, u),
{
    law_lookups_find_records(v, t, dir, J_TYPE_INODE);
    lemma_hit_leaf(v, t, dir, J_TYPE_INODE, p);
    let was = picked(recs(t), dir, J_TYPE_INODE)[0].1;
    let not_a_leaf = "dec_inode_counter_in_node: target is not a leaf"@;
    let f = |n: NodeView|
        edit_inode(
            n,
            dir,
            "dec_inode_counter_in_node: target is not a leaf"@,
            dec_edit(dir),
        );
    lemma_with_fixed(was, uncounted(inode_of(was)));
    lemma_edit_succeeds(v, t, m, s, p, dir, not_a_leaf, dec_edit(dir), f);
}

/// Whether the directory of what a path names has it among its entries and
/// counts it.
pub open spec fn counts_entry(v: VolumeView, t: Tree, path: Seq<char>) -> bool {
    &&& v.resolve(path) matches Ok((oid, inode))
    &&& inode.parent_id != oid
    &&& can_remove(t, path, inode.parent_id)
    &&& inode_in(recs(t), inode.parent_id) matches Ok(i)
    &&& i.nchildren_or_nlink > 0
}

/// What a path names is among the entries of its directory.
pub proof fn lemma_named(v: VolumeView, t: Tree, path: Seq<char>, dir: u64)
    requires
        v.has_catalog(t),
        trimmed(path).len() > 0,
        v.resolve(path) is Ok,
        dir_walk(
            recs(t),
            components(parent_path(parent_part(trimmed(path)))),
            0,
            ROOT_DIR_RECORD,
        ) == Some(dir),
    ensures
        names_entry(recs(t), dir, base_part(trimmed(path))),
        inode_in(recs(t), (v.resolve(path)->Ok_0).0) == Ok::<InodeVal, Fault>(
            (v.resolve(path)->Ok_0).1,
        ),
{
    let r = recs(t);
    let parent = parent_path(parent_part(trimmed(path)));
    let name = base_part(trimmed(path));
    law_volume_shows_records(v, t, path, 0);
    law_names_of_parent_and_entry(path);
    lemma_walk_entry(r, components(parent), name, 0, ROOT_DIR_RECORD);
    lemma_walk_inode(r, components(path), 0, ROOT_DIR_RECORD);
    if !names_entry(r, dir, name) {
        lemma_no_name(picked(r, dir, J_TYPE_DIR_REC), name, 0);
    }
}

/// A file with one link and no extended attributes can be unlinked.
pub proof fn law_unlink_succeeds(v: VolumeView, t: Tree, m: Set<u64>, path: Seq<char>)
    requires
        v.sound(t, m),
        trimmed(path).len() > 0,
        counts_entry(v, t, path),
        v.resolve(path) matches Ok((oid, inode)) && mode_kind(inode.mode) == INODE_FILE_TYPE
            && inode.nchildren_or_nlink == 1 && v.hit(oid, J_TYPE_XATTR) == Ok::<
            Option<(Seq<u8>, u64)>,
            Fault,
        >(None),
        can_commit(v),
    ensures
        v.unlink(path).0 is Ok,
{
    let (oid, inode) = v.resolve(path)->Ok_0;
    let dir = inode.parent_id;
    let sid = inode.private_id;
    let name = base_part(trimmed(path));
    let missing = unlink_no_drec(dir, name);
    let r = recs(t);
    lemma_named(v, t, path, dir);
    lemma_sized(v, t, m);
    lemma_drop_succeeds(v, t, m, dir, name, missing);
    let (x, f, y) = lemma_drop_drec(v, t, m, dir, name, missing);
    let s1 = v.drop_drec(dir, name, missing)->Ok_0;
    let r1 = recs_with(t, s1);
    lemma_still(v, t, seq![], s1);
    assert(picked(r1, oid, J_TYPE_INODE) == picked(r, oid, J_TYPE_INODE));
    assert(picked(r1, dir, J_TYPE_INODE) == picked(r, dir, J_TYPE_INODE));
    assert(picked(r1, sid, J_TYPE_DSTREAM_ID) == picked(r, sid, J_TYPE_DSTREAM_ID));
    lemma_delete_succeeds(v, t, m, s1, oid, J_TYPE_INODE);
    lemma_delete_record(v, t, m, s1, oid, J_TYPE_INODE);
    let s2a = v.delete_record(s1, oid, J_TYPE_INODE).1;
    let r2a = recs_with(t, s2a);
    lemma_still(v, t, s1, s2a);
    assert(picked(r2a, dir, J_TYPE_INODE) == picked(r1, dir, J_TYPE_INODE));
    assert(picked(r2a, sid, J_TYPE_DSTREAM_ID) == picked(r1, sid, J_TYPE_DSTREAM_ID));
    assert(picked(r2a, sid, J_TYPE_FILE_EXTENT) == picked(r1, sid, J_TYPE_FILE_EXTENT));
    assert(picked(r1, sid, J_TYPE_FILE_EXTENT) == picked(r, sid, J_TYPE_FILE_EXTENT));
    law_lookups_find_records(v, t, sid, J_TYPE_DSTREAM_ID);
    if picked(r, sid, J_TYPE_DSTREAM_ID).len() > 0 {
        lemma_delete_succeeds(v, t, m, s2a, sid, J_TYPE_DSTREAM_ID);
        lemma_delete_record(v, t, m, s2a, sid, J_TYPE_DSTREAM_ID);
        lemma_still(v, t, s2a, v.delete_record(s2a, sid, J_TYPE_DSTREAM_ID).1);
    }
    let s2 = v.drop_inode(s1, oid, sid)->Ok_0;
    let r2 = recs_with(t, s2);
    assert(v.drop_inode(s1, oid, sid) is Ok && sized(v, t, s2) && touched_ok(t, s2));
    assert(picked(r2, dir, J_TYPE_INODE) == picked(r2a, dir, J_TYPE_INODE));
    assert(picked(r2, sid, J_TYPE_FILE_EXTENT) == picked(r2a, sid, J_TYPE_FILE_EXTENT));
    lemma_drop_extents_succeeds(v, t, m, s2, sid);
    lemma_drop_extents(v, t, m, s2, sid);
    let s3 = v.drop_extents(s2, sid)->Ok_0;
    lemma_still(v, t, s2, s3);
    assert(picked(recs_with(t, s3), dir, J_TYPE_INODE) == picked(r2, dir, J_TYPE_INODE));
    law_lookups_find_records(v, t, dir, J_TYPE_INODE);
    let p = v.record_leaf(dir, J_TYPE_INODE)->Ok_0;
    lemma_count_off_succeeds(v, t, m, s3, p, dir);
    lemma_count_off(v, t, m, s3, p, dir);
    lemma_still(v, t, s3, v.count_off(s3, p, dir)->Ok_0);
    lemma_commit_succeeds(v, t, m, v.unlinked(oid, sid, dir, name)->Ok_0);
}

/// An empty directory can be removed.
pub proof fn law_remove_directory_succeeds(v: VolumeView, t: Tree, m: Set<u64>, path: Seq<char>)
    requires
        v.sound(t, m),
        trimmed(path).len() > 0,
        counts_entry(v, t, path),
        v.resolve(path) matches Ok((_, inode)) && mode_kind(inode.mode) == INODE_DIR_TYPE
            && inode.nchildren_or_nlink == 0,
        can_commit(v),
    ensures
        v.remove_directory(path).0 is Ok,
{
    let (oid, inode) = v.resolve(path)->Ok_0;
    let dir = inode.parent_id;
    let name = base_part(trimmed(path));
    let missing = rmdir_no_drec(dir, name);
    let r = recs(t);
    lemma_named(v, t, path, dir);
    lemma_sized(v, t, m);
    lemma_drop_succeeds(v, t, m, dir, name, missing);
    let (x, f, y) = lemma_drop_drec(v, t, m, dir, name, missing);
    let s1 = v.drop_drec(dir, name, missing)->Ok_0;
    let r1 = recs_with(t, s1);
    lemma_still(v, t, seq![], s1);
    assert(picked(r1, oid, J_TYPE_INODE) == picked(r, oid, J_TYPE_INODE));
    assert(picked(r1, dir, J_TYPE_INODE) == picked(r, dir, J_TYPE_INODE));
    lemma_delete_succeeds(v, t, m, s1, oid, J_TYPE_INODE);
    lemma_delete_record(v, t, m, s1, oid, J_TYPE_INODE);
    let s2 = v.delete_record(s1, oid, J_TYPE_INODE).1;
    lemma_still(v, t, s1, s2);
    assert(picked(recs_with(t, s2), dir, J_TYPE_INODE) == picked(r1, dir, J_TYPE_INODE));
    law_lookups_find_records(v, t, dir, J_TYPE_INODE);
    let p = v.record_leaf(dir, J_TYPE_INODE)->Ok_0;
    lemma_count_off_succeeds(v, t, m, s2, p, dir);
    lemma_count_off(v, t, m, s2, p, dir);
    lemma_still(v, t, s2, v.count_off(s2, p, dir)->Ok_0);
    lemma_commit_succeeds(v, t, m, v.directory_removed(oid, dir, name)->Ok_0);
}

/// What a move counts and describes anew can be.
#[verifier::rlimit(40)]
proof fn lemma_moved_succeeds(
    v: VolumeView,
    t: Tree,
    m: Set<u64>,
    s: Seq<(u64, NodeView)>,
    oid: u64,
    fd: u64,
    td: u64,
    now: i64,
)
    requires
        v.sound(t, m),
        touched_ok(t, s),
        fd != td,
        oid != fd,
        oid != td,
        forall|o: u64| #[trigger]
            picked(recs_with(t, s), o, J_TYPE_INODE) == picked(recs(t), o, J_TYPE_INODE),
        inode_in(recs(t), fd) matches Ok(i) && i.nchildren_or_nlink > 0,
        inode_in(recs(t), td) is Ok,
        inode_in(recs(t), oid) is Ok,
    ensures
        v.moved(s, oid, fd, td, now) matches Ok(u) && touched_ok(t, u) && no_worse(v, t, s, u),
{
    let ino = J_TYPE_INODE;
    let r = recs(t);
    let r0 = recs_with(t, s);
    law_lookups_find_records(v, t, fd, ino);
    law_lookups_find_records(v, t, td, ino);
    law_lookups_find_records(v, t, oid, ino);
    assert(picked(r0, fd, ino) == picked(r, fd, ino));
    assert(picked(r0, td, ino) == picked(r, td, ino));
    assert(picked(r0, oid, ino) == picked(r, oid, ino));
    let p1 = v.record_leaf(fd, ino)->Ok_0;
    lemma_count_off_succeeds(v, t, m, s, p1, fd);
    lemma_count_off(v, t, m, s, p1, fd);
    let s1 = v.count_off(s, p1, fd)->Ok_0;
    let r1 = recs_with(t, s1);
    assert(picked(r1, td, ino) == picked(r0, td, ino));
    assert(picked(r1, oid, ino) == picked(r0, oid, ino));
    let p2 = v.record_leaf(td, ino)->Ok_0;
    lemma_count_in_succeeds(v, t, m, s1, p2, td);
    lemma_count_in(v, t, m, s1, p2, td);
    let s2 = v.count_in(s1, p2, td)->Ok_0;
    assert(picked(recs_with(t, s2), oid, ino) == picked(r1, oid, ino));
    let p3 = v.record_leaf(oid, ino)->Ok_0;
    lemma_hit_leaf(v, t, oid, ino, p3);
    let f = |n: NodeView| reparent(n, oid, td, now);
    lemma_reparent_succeeds(v, t, m, s2, p3, oid, td, now, f);
    lemma_reparent(v, t, m, s2, p3, oid, td, now, f);
    lemma_chain(v, t, s, s1, s2);
    lemma_chain(v, t, s, s2, v.change(s2, p3, f).1);
}

/// Whether there is room for a rename: the names can be keys, no record has the
/// key of the new one, the leaf that it goes to takes a record with it, and the
/// directory that loses an entry counts one.
pub open spec fn room_to_rename(
    v: VolumeView,
    mv: Move,
    from_name: Seq<char>,
    to_name: Seq<char>,
) -> bool {
    let key = (v.hashed_key(mv.to_parent, to_name)->Ok_0).1;
    &&& is_ascii_chars(from_name)
    &&& can_be_key(to_name)
    &&& name_unused(v, mv.to_parent, key)
    &&& room_at(v, seq![], v.key_leaf(key)->Ok_0, drec_room(to_name), 1)
    &&& counts_entries(v, mv.from_parent)
    &&& can_commit(v)
}

/// Whether no directory record of `dir` has the key.
pub open spec fn name_unused(v: VolumeView, dir: u64, key: Seq<u8>) -> bool {
    v.hits(dir, J_TYPE_DIR_REC) matches Ok(found) && none_has(found, key)
}

/// Whether no record has the key.
pub open spec fn none_has(found: Seq<Found>, key: Seq<u8>) -> bool {
    forall|i: int| 0 <= i < found.len() ==> key_sign((#[trigger] found[i]).0, key) != 0
}

/// Whether the inode of `dir` counts at least one entry.
pub open spec fn counts_entries(v: VolumeView, dir: u64) -> bool {
    &&& v.hit(dir, J_TYPE_INODE) matches Ok(Some((val, _)))
    &&& inode_outcome(val) matches Ok(i)
    &&& i.nchildren_or_nlink > 0
}

/// The record of a new name goes in where there is room for it, when that of
/// the old one was taken out.
#[verifier::rlimit(40)]
proof fn lemma_renamed_drecs(
    v: VolumeView,
    t: Tree,
    m: Set<u64>,
    mv: Move,
    from_name: Seq<char>,
    to_name: Seq<char>,
    h: u32,
    key: Seq<u8>,
    now: i64,
)
    requires
        v.sound(t, m),
        v.hashed_key(mv.to_parent, to_name) == Ok::<(u32, Seq<u8>), Fault>((h, key)),
        can_move(recs(t), t, mv, from_name, to_name, key),
        unused(recs(t), mv.to_parent, J_TYPE_DIR_REC, key),
        room_at(v, seq![], v.key_leaf(key)->Ok_0, drec_room(to_name), 1),
        names_entry(recs(t), mv.from_parent, from_name),
    ensures
        ({
            let d = DrecVal { file_id: mv.oid, date_added: now, flags: drec_type(mv.inode) };
            &&& v.key_leaf(key) matches Ok(leaf)
            &&& v.drop_drec(mv.from_parent, from_name, no_source(from_name)) matches Ok(s1)
            &&& v.put_drec(s1, leaf, mv.to_parent, to_name, h, d) matches Ok(s2)
            &&& touched_ok(t, s2)
            &&& sized(v, t, s2)
            &&& forall|o: u64| #[trigger]
                picked(recs_with(t, s2), o, J_TYPE_INODE) == picked(recs(t), o, J_TYPE_INODE)
        }),
{
    broadcast use group_bytes_len;

    let fd = mv.from_parent;
    let td = mv.to_parent;
    let d = DrecVal { file_id: mv.oid, date_added: now, flags: drec_type(mv.inode) };
    let bytes = drec_room(to_name);
    let r0 = recs(t);
    lemma_sized(v, t, m);
    assert(key == drec_key(td, to_name, h));
    assert(key.len() == 13 + encode_utf8(to_name).len());
    let rest = key.subrange(8, key.len() as int);
    assert(key =~= key_head(td, J_TYPE_DIR_REC) + rest);
    law_key_head_roundtrip(td, J_TYPE_DIR_REC, rest);
    lemma_place(v, t, m, key);
    let leaf = v.key_leaf(key)->Ok_0;
    lemma_drop_succeeds(v, t, m, fd, from_name, no_source(from_name));
    let (x, f, y) = lemma_drop_drec(v, t, m, fd, from_name, no_source(from_name));
    let s1 = v.drop_drec(fd, from_name, no_source(from_name))->Ok_0;
    let r1 = recs_with(t, s1);
    lemma_still(v, t, seq![], s1);
    lemma_still_room(v, t, seq![], s1, leaf, bytes, 1);
    lemma_named_among(x, f, y, to_name);
    if td == fd {
        assert forall|i: int| 0 <= i < (x + y).len() implies key_sign(
            (#[trigger] (x + y)[i]).0,
            key,
        ) != 0 by {
            let k = if i < x.len() {
                i
            } else {
                i + 1
            };
            assert(picked(r0, td, J_TYPE_DIR_REC)[k] == (x + y)[i]);
        }
    } else {
        assert(picked(r1, td, J_TYPE_DIR_REC) == picked(r0, td, J_TYPE_DIR_REC));
    }
    assert(drec_bytes(d).len() == 18);
    let g = |n: NodeView| insert_drec(n, td, to_name, h, d);
    lemma_insert_succeeds(
        v,
        t,
        m,
        s1,
        leaf,
        key,
        drec_bytes(d),
        td,
        J_TYPE_DIR_REC,
        g,
        bytes,
        1,
    );
    lemma_named_among(x, f, y, from_name);
    lemma_put_drec(v, t, m, s1, leaf, td, to_name, h, d);
    let s2 = v.put_drec(s1, leaf, td, to_name, h, d)->Ok_0;
    assert forall|o: u64| #[trigger] picked(recs_with(t, s2), o, J_TYPE_INODE) == picked(
        r0,
        o,
        J_TYPE_INODE,
    ) by {
        assert(picked(r1, o, J_TYPE_INODE) == picked(r0, o, J_TYPE_INODE));
    }
}

/// The records of an entry are moved where there is room for them.
#[verifier::rlimit(40)]
pub proof fn lemma_renamed_succeeds(
    v: VolumeView,
    t: Tree,
    m: Set<u64>,
    mv: Move,
    from_name: Seq<char>,
    to_name: Seq<char>,
    h: u32,
    key: Seq<u8>,
    now: i64,
)
    requires
        v.sound(t, m),
        v.hashed_key(mv.to_parent, to_name) == Ok::<(u32, Seq<u8>), Fault>((h, key)),
        can_move(recs(t), t, mv, from_name, to_name, key),
        room_to_rename(v, mv, from_name, to_name),
        names_entry(recs(t), mv.from_parent, from_name),
        inode_in(recs(t), mv.to_parent) is Ok,
        inode_in(recs(t), mv.oid) is Ok,
    ensures
        v.renamed(mv, from_name, to_name, h, key, now) matches Ok(s) && touched_ok(t, s) && sized(
            v,
            t,
            s,
        ),
{
    let fd = mv.from_parent;
    let td = mv.to_parent;
    let d = DrecVal { file_id: mv.oid, date_added: now, flags: drec_type(mv.inode) };
    lemma_unused_name(v, t, td, key);
    lemma_renamed_drecs(v, t, m, mv, from_name, to_name, h, key, now);
    let leaf = v.key_leaf(key)->Ok_0;
    let s1 = v.drop_drec(fd, from_name, no_source(from_name))->Ok_0;
    let s2 = v.put_drec(s1, leaf, td, to_name, h, d)->Ok_0;
    assert(v.renamed(mv, from_name, to_name, h, key, now) == (if fd == td {
        Ok(s2)
    } else {
        v.moved(s2, mv.oid, fd, td, now)
    }));
    if fd != td {
        lemma_counted_inode(v, t, fd);
        lemma_moved_succeeds(v, t, m, s2, mv.oid, fd, td, now);
        lemma_still(v, t, s2, v.moved(s2, mv.oid, fd, td, now)->Ok_0);
    }
}

/// A directory that counts an entry has an inode that does.
proof fn lemma_counted_inode(v: VolumeView, t: Tree, dir: u64)
    requires
        v.has_catalog(t),
        counts_entries(v, dir),
    ensures
        inode_in(recs(t), dir) matches Ok(i) && i.nchildren_or_nlink > 0,
{
    law_lookups_find_records(v, t, dir, J_TYPE_INODE);
}

/// A name that is not in use is not in use among the records.
proof fn lemma_unused_name(v: VolumeView, t: Tree, dir: u64, key: Seq<u8>)
    requires
        v.has_catalog(t),
        name_unused(v, dir, key),
    ensures
        unused(recs(t), dir, J_TYPE_DIR_REC, key),
{
    let found = v.hits(dir, J_TYPE_DIR_REC)->Ok_0;
    assert(found == picked(recs(t), dir, J_TYPE_DIR_REC)) by {
        law_lookups_find_records(v, t, dir, J_TYPE_DIR_REC);
    }
    lemma_none_has(found, key);
}

proof fn lemma_none_has(found: Seq<Found>, key: Seq<u8>)
    requires
        none_has(found, key),
    ensures
        forall|i: int| 0 <= i < found.len() ==> key_sign((#[trigger] found[i]).0, key) != 0,
{
}

/// An object can be renamed to a path where nothing is, when there is room.
#[verifier::rlimit(40)]
pub proof fn law_rename_succeeds(
    v: VolumeView,
    t: Tree,
    m: Set<u64>,
    from: Seq<char>,
    to: Seq<char>,
    replace: bool,
    now: i64,
)
    requires
        v.sound(t, m),
        trimmed(from).len() > 0,
        trimmed(to).len() > 0,
        v.plan_move(from, to) matches Ok(mv) && mv.existing is None && can_rename(
            v,
            t,
            mv,
            from,
            to,
        ) && room_to_rename(v, mv, base_part(trimmed(from)), base_part(trimmed(to))),
    ensures
        v.rename(from, to, replace, now).0 is Ok,
{
    if trimmed(from) != trimmed(to) {
        let mv = v.plan_move(from, to)->Ok_0;
        let from_name = base_part(trimmed(from));
        let to_name = base_part(trimmed(to));
        let (h, key) = v.hashed_key(mv.to_parent, to_name)->Ok_0;
        let parent = parent_path(parent_part(trimmed(to)));
        lemma_named(v, t, from, mv.from_parent);
        law_volume_shows_records(v, t, parent, 0);
        lemma_walk_inode(recs(t), components(parent), 0, ROOT_DIR_RECORD);
        lemma_renamed_succeeds(v, t, m, mv, from_name, to_name, h, key, now);
        lemma_commit_succeeds(
            v,
            t,
            m,
            v.renamed(mv, from_name, to_name, h, key, now)->Ok_0,
        );
    }
}

} // verus!
