//! What a volume shows after it was changed.

use crate::apfs::btree::node::NodeView;
use crate::apfs::btree::search::Found;
use crate::apfs::catalog::edit::{
    edit_inode, law_size_edit, law_times_edit, size_edit, times_edit, with_times,
};
use crate::apfs::catalog::records::{
    inode_of, inode_outcome, inode_size, InodeVal, J_TYPE_FILE_EXTENT, J_TYPE_INODE,
    ROOT_DIR_RECORD,
};
use crate::apfs::error::Fault;
use crate::apfs::extents::{fork_prefix, spans_of};
use crate::apfs::path::components;
use crate::apfs::volume::commit::{lemma_commit, tree_after};
use crate::apfs::volume::effects::{
    lemma_commit_file, lemma_edit_inode, lemma_hit_leaf, lemma_untouched, lemma_walk_changed,
    spans_clear, with_inode,
};
use crate::apfs::volume::model::{drec_in, inode_in, law_volume_shows_records, walk_in};
use crate::apfs::volume::remount::{follows, lemma_commit_follows, lemma_data_follows};
use crate::apfs::volume::state::VolumeView;
use crate::apfs::volume::steps::only;
use crate::apfs::volume::tree::{picked, recs, Tree};
use vstd::prelude::*;

verus! {

/// Whether files that are clear of metadata are the same on both devices.
pub open spec fn files_kept(v: VolumeView, w: VolumeView, t: Tree, m: Set<u64>) -> bool {
    forall|spans: Seq<(u64, u64, u64)>, limit: int|
        spans_clear(t, m, v.nx, v.block_size, spans) ==> #[trigger] fork_prefix(
            w.disk,
            spans,
            0,
            limit,
        ) == fork_prefix(v.disk, spans, 0, limit)
}

/// The inode that a path leads to is the inode of the object.
pub proof fn lemma_walk_inode(r: Seq<Found>, names: Seq<Seq<char>>, k: int, parent: u64)
    ensures
        walk_in(r, names, k, parent) matches Ok((o, i)) ==> inode_in(r, o) == Ok::<
            InodeVal,
            Fault,
        >(i),
    decreases names.len() - k,
{
    if 0 <= k < names.len() {
        if let Ok(d) = drec_in(r, parent, names[k]) {
            lemma_walk_inode(r, names, k + 1, d.file_id);
        }
    }
}

/// An inode is changed and the change committed. Gives the catalog afterwards,
/// and the old and the new value.
pub proof fn lemma_update_inode(
    v: VolumeView,
    t: Tree,
    m: Set<u64>,
    oid: u64,
    not_a_leaf: Seq<char>,
    e: spec_fn(Seq<u8>) -> Result<Seq<u8>, Fault>,
    f: spec_fn(NodeView) -> (Result<int, Fault>, NodeView),
) -> (r: (Tree, Seq<u8>, Seq<u8>))
    requires
        v.sound(t, m),
        forall|n: NodeView| #[trigger] f(n) == edit_inode(n, oid, not_a_leaf, e),
        v.update_inode(oid, f).0 is Ok,
    ensures
        ({
            let w = v.update_inode(oid, f).1;
            &&& w == (VolumeView { disk: w.disk, nx: w.nx, ..v })
            &&& w.sound(r.0, m)
            &&& only(recs(t), recs(r.0), oid, J_TYPE_INODE)
            &&& e(r.1) == Ok::<Seq<u8>, Fault>(r.2)
            &&& inode_in(recs(t), oid) == inode_outcome(r.1)
            &&& inode_in(recs(r.0), oid) == inode_outcome(r.2)
            &&& files_kept(v, w, t, m)
            &&& follows(v, t, w, r.0, m)
        }),
{
    let p = (v.hit(oid, J_TYPE_INODE)->Ok_0->0).1;
    lemma_hit_leaf(v, t, oid, J_TYPE_INODE, p);
    lemma_untouched(v, t, m);
    let none: Seq<(u64, NodeView)> = seq![];
    let (k, old, new) = lemma_edit_inode(v, t, m, none, p, oid, not_a_leaf, e, f);
    let s = v.change(none, p, f).1;
    let w = v.update_inode(oid, f).1;
    assert(w == v.commit(s).1);
    lemma_commit(v, t, m, s);
    lemma_commit_follows(v, t, m, s);
    assert forall|spans: Seq<(u64, u64, u64)>, limit: int|
        spans_clear(t, m, v.nx, v.block_size, spans) implies #[trigger] fork_prefix(
        w.disk,
        spans,
        0,
        limit,
    ) == fork_prefix(v.disk, spans, 0, limit) by {
        lemma_commit_file(v, t, m, s, spans, limit);
    }
    (tree_after(t, s, v.nx), old, new)
}

/// What holds of lookups when only an inode changed.
proof fn lemma_inode_changed(
    v: VolumeView,
    w: VolumeView,
    t: Tree,
    u: Tree,
    m: Set<u64>,
    oid: u64,
    i: InodeVal,
    path: Seq<char>,
    o: u64,
)
    requires
        v.has_catalog(t),
        w.has_catalog(u),
        only(recs(t), recs(u), oid, J_TYPE_INODE),
        inode_in(recs(t), oid) is Ok,
        inode_in(recs(u), oid) == Ok::<InodeVal, Fault>(i),
    ensures
        w.resolve(path) == with_inode(v.resolve(path), oid, i),
        v.resolve(path) matches Ok((x, was)) ==> (x == oid ==> inode_in(recs(t), oid) == Ok::<
            InodeVal,
            Fault,
        >(was)),
        w.extents(o) == v.extents(o),
{
    law_volume_shows_records(v, t, path, o);
    law_volume_shows_records(w, u, path, o);
    lemma_walk_changed(recs(t), recs(u), oid, i, components(path), 0, ROOT_DIR_RECORD);
    lemma_walk_inode(recs(t), components(path), 0, ROOT_DIR_RECORD);
    assert(picked(recs(u), o, J_TYPE_FILE_EXTENT) == picked(recs(t), o, J_TYPE_FILE_EXTENT));
}

/// Setting the times of an object is seen by every path that names it, and
/// nothing else is: other objects, and what files consist of, stay as they
/// were. Gives the catalog afterwards, to which further changes can be made.
pub proof fn law_set_times_is_shown(
    v: VolumeView,
    t: Tree,
    m: Set<u64>,
    oid: u64,
    create_time: Option<i64>,
    modify_time: Option<i64>,
    change_time: Option<i64>,
    access_time: Option<i64>,
) -> (u: Tree)
    requires
        v.sound(t, m),
        v.set_times_of(oid, create_time, modify_time, change_time, access_time).0 is Ok,
    ensures
        ({
            let w = v.set_times_of(oid, create_time, modify_time, change_time, access_time).1;
            &&& w.sound(u, m)
            &&& forall|path: Seq<char>| #[trigger]
                w.resolve(path) == (match v.resolve(path) {
                    Ok((o, i)) => Ok(
                        (
                            o,
                            if o == oid {
                                with_times(i, create_time, modify_time, change_time, access_time)
                            } else {
                                i
                            },
                        ),
                    ),
                    Err(e) => Err(e),
                })
            &&& forall|o: u64| #[trigger] w.extents(o) == v.extents(o)
            &&& files_kept(v, w, t, m)
            &&& follows(v, t, w, u, m)
        }),
{
    let not_a_leaf = "set_inode_times_in_node: target is not a leaf"@;
    let e = times_edit(create_time, modify_time, change_time, access_time);
    let f = |n: NodeView|
        edit_inode(
            n,
            oid,
            "set_inode_times_in_node: target is not a leaf"@,
            times_edit(create_time, modify_time, change_time, access_time),
        );
    let w = v.set_times_of(oid, create_time, modify_time, change_time, access_time).1;
    assert(v.set_times_of(oid, create_time, modify_time, change_time, access_time)
        == v.update_inode(oid, f));
    let (u, old, new) = lemma_update_inode(v, t, m, oid, not_a_leaf, e, f);
    law_times_edit(old, create_time, modify_time, change_time, access_time);
    let i = with_times(inode_of(old), create_time, modify_time, change_time, access_time);
    assert forall|path: Seq<char>| #[trigger] w.resolve(path) == (match v.resolve(path) {
        Ok((o, i)) => Ok(
            (
                o,
                if o == oid {
                    with_times(i, create_time, modify_time, change_time, access_time)
                } else {
                    i
                },
            ),
        ),
        Err(e) => Err(e),
    }) by {
        lemma_inode_changed(v, w, t, u, m, oid, i, path, 0);
    }
    assert forall|o: u64| #[trigger] w.extents(o) == v.extents(o) by {
        lemma_inode_changed(v, w, t, u, m, oid, i, seq![], o);
    }
    u
}

/// The front of a fork is the front of a longer front.
pub proof fn lemma_shorter_front(
    disk: Seq<u8>,
    spans: Seq<(u64, u64, u64)>,
    i: int,
    short: int,
    long: int,
)
    requires
        0 <= i <= spans.len(),
        0 <= short <= long,
        fork_prefix(disk, spans, i, long) is Ok,
    ensures
        ({
            let b = fork_prefix(disk, spans, i, long)->Ok_0;
            fork_prefix(disk, spans, i, short) == Ok::<Seq<u8>, Fault>(
                b.take(
                    if short <= b.len() {
                        short
                    } else {
                        b.len() as int
                    },
                ),
            )
        }),
    decreases spans.len() - i,
{
    let b = fork_prefix(disk, spans, i, long)->Ok_0;
    if i < spans.len() && long > 0 {
        let (_, phys, len) = spans[i];
        let n = if len <= long {
            len as int
        } else {
            long
        };
        let k = if len <= short {
            len as int
        } else {
            short
        };
        let rest = fork_prefix(disk, spans, i + 1, long - n)->Ok_0;
        let head = disk.subrange(phys as int, phys + n);
        assert(b == head + rest);
        lemma_shorter_front(disk, spans, i + 1, short - k, long - n);
        if short > 0 {
            let short_rest = fork_prefix(disk, spans, i + 1, short - k)->Ok_0;
            let short_head = disk.subrange(phys as int, phys + k);
            assert(short_head =~= head.take(k));
            if k < len {
                assert(short_rest =~= seq![]);
            }
            let end = if short <= b.len() {
                short
            } else {
                b.len() as int
            };
            assert(short_head + short_rest =~= b.take(end));
        } else {
            assert(b.take(0) =~= seq![]);
        }
    } else {
        assert(b =~= seq![]);
        assert(b.take(0) =~= seq![]);
    }
}

/// An inode with this size.
pub open spec fn sized(i: InodeVal, size: u64) -> InodeVal {
    if inode_size(i) == size {
        i
    } else {
        InodeVal { dstream_size: Some(size), ..i }
    }
}

/// Setting the size of a file cuts off what is behind it, for every path that
/// names the file. Other objects stay as they were. Gives the catalog
/// afterwards.
pub proof fn law_set_size_is_shown(
    v: VolumeView,
    t: Tree,
    m: Set<u64>,
    path: Seq<char>,
    new_size: u64,
) -> (u: Tree)
    requires
        v.sound(t, m),
        v.set_size(path, new_size).0 is Ok,
    ensures
        ({
            let w = v.set_size(path, new_size).1;
            let (oid, inode) = v.resolve(path)->Ok_0;
            &&& w.sound(u, m)
            &&& forall|q: Seq<char>| #[trigger]
                w.resolve(q) == (match v.resolve(q) {
                    Ok((o, i)) => Ok(
                        (
                            o,
                            if o == oid {
                                sized(i, new_size)
                            } else {
                                i
                            },
                        ),
                    ),
                    Err(e) => Err(e),
                })
            &&& forall|o: u64| #[trigger] w.extents(o) == v.extents(o)
            &&& files_kept(v, w, t, m)
            &&& follows(v, t, w, u, m)
            &&& v.extents(inode.private_id) matches Ok(exts) ==> (spans_clear(
                t,
                m,
                v.nx,
                v.block_size,
                spans_of(exts, v.block_size),
            ) ==> (v.contents(path) matches Ok(b) ==> w.contents(path) == Ok::<Seq<u8>, Fault>(
                b.take(
                    if new_size <= b.len() {
                        new_size as int
                    } else {
                        b.len() as int
                    },
                ),
            )))
        }),
{
    let w = v.set_size(path, new_size).1;
    let (oid, inode) = v.resolve(path)->Ok_0;
    let not_a_leaf = "set_inode_dstream_size_in_node: target is not a leaf"@;
    let e = size_edit(oid, new_size);
    let f = |n: NodeView|
        edit_inode(
            n,
            oid,
            "set_inode_dstream_size_in_node: target is not a leaf"@,
            size_edit(oid, new_size),
        );
    if new_size == inode_size(inode) {
        assert(w == v);
        lemma_data_follows(v, v.disk, t, m);
        assert forall|q: Seq<char>| #[trigger] w.resolve(q) == (match v.resolve(q) {
            Ok((o, i)) => Ok(
                (
                    o,
                    if o == oid {
                        sized(i, new_size)
                    } else {
                        i
                    },
                ),
            ),
            Err(e) => Err(e),
        }) by {
            lemma_resolve_inode(v, t, path);
            lemma_resolve_inode(v, t, q);
        }
        if v.contents(path) is Ok {
            let exts = v.extents(inode.private_id)->Ok_0;
            lemma_shorter_front(
                v.disk,
                spans_of(exts, v.block_size),
                0,
                new_size as int,
                new_size as int,
            );
        }
        t
    } else {
        assert(v.set_size(path, new_size) == v.update_inode(oid, f));
        let (u, old, new) = lemma_update_inode(v, t, m, oid, not_a_leaf, e, f);
        law_size_edit(old, oid, new_size);
        let i = InodeVal { dstream_size: Some(new_size), ..inode_of(old) };
        lemma_resolve_inode(v, t, path);
        assert(inode == inode_of(old));
        assert forall|q: Seq<char>| #[trigger] w.resolve(q) == (match v.resolve(q) {
            Ok((o, i)) => Ok(
                (
                    o,
                    if o == oid {
                        sized(i, new_size)
                    } else {
                        i
                    },
                ),
            ),
            Err(e) => Err(e),
        }) by {
            lemma_inode_changed(v, w, t, u, m, oid, i, q, 0);
        }
        assert forall|o: u64| #[trigger] w.extents(o) == v.extents(o) by {
            lemma_inode_changed(v, w, t, u, m, oid, i, seq![], o);
        }
        if let Ok(exts) = v.extents(inode.private_id) {
            let spans = spans_of(exts, v.block_size);
            if spans_clear(t, m, v.nx, v.block_size, spans) && v.contents(path) is Ok {
                assert(w.resolve(path) == Ok::<(u64, InodeVal), Fault>((oid, i)));
                assert(w.extents(i.private_id) == v.extents(inode.private_id));
                assert(fork_prefix(w.disk, spans, 0, new_size as int) == fork_prefix(
                    v.disk,
                    spans,
                    0,
                    new_size as int,
                ));
                lemma_shorter_front(
                    v.disk,
                    spans,
                    0,
                    new_size as int,
                    inode_size(inode) as int,
                );
            }
        }
        u
    }
}

/// The inode that a path shows is that of the object it names.
pub proof fn lemma_resolve_inode(v: VolumeView, t: Tree, path: Seq<char>)
    requires
        v.has_catalog(t),
    ensures
        v.resolve(path) matches Ok((o, i)) ==> inode_in(recs(t), o) == Ok::<InodeVal, Fault>(i),
{
    law_volume_shows_records(v, t, path, 0);
    lemma_walk_inode(recs(t), components(path), 0, ROOT_DIR_RECORD);
}

} // verus!
