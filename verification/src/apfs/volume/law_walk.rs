//! What a walk shows after an entry was created, removed or moved.

use crate::apfs::btree::search::Found;
use crate::apfs::catalog::query::{entry_with, named_drec};
use crate::apfs::catalog::records::{
    inode_size, DrecVal, InodeVal, J_TYPE_DIR_REC, ROOT_DIR_RECORD,
};
use crate::apfs::error::Fault;
use crate::apfs::path::{
    base_part, components, law_names_of_parent_and_entry, parent_part, parent_path, trimmed,
};
use crate::apfs::types::{DirEntryView, EntryKind, WalkEntryView};
use crate::apfs::volume::commit::{lemma_commit, tree_after};
use crate::apfs::volume::create::{new_drec, new_inode};
use crate::apfs::volume::law_create::{can_create, entry_created, lemma_created};
use crate::apfs::volume::law_remove::{
    can_remove, drec_taken, entry_removed, lemma_directory_removed, lemma_unlinked,
};
use crate::apfs::volume::law_rename::{
    can_move, can_rename, drec_put, entry_moved, lemma_renamed, moved_inode, MoveSteps,
};
use crate::apfs::volume::laws::lemma_walk_inode;
use crate::apfs::volume::listing::walked;
use crate::apfs::volume::model::{
    directory_in, drec_in, entries_in, inode_in, law_volume_shows_records,
};
use crate::apfs::volume::names::{dir_walk, lemma_once, lemma_walk_entry, names_once};
use crate::apfs::volume::rename::{drec_type, Move};
use crate::apfs::volume::state::VolumeView;
use crate::apfs::volume::steps::recs_with;
use crate::apfs::volume::tree::{picked, recs, Tree};
use crate::apfs::volume::walks::{
    all_grown_by, dirs_of, entry_put, lemma_all_ends, lemma_all_grown, lemma_shown_alone,
    lemma_volume_walk, shown, walk_all, Dirs,
};
use vstd::prelude::*;

verus! {

/// The directories that the directory records of `q` make with the inodes of
/// `r`.
pub open spec fn dirs_at(r: Seq<Found>, q: Seq<Found>) -> Dirs {
    |o: u64| Ok(entries_in(r, picked(q, o, J_TYPE_DIR_REC), 0))
}

/// Whether a listing tells the same of the inode `o`.
pub open spec fn looks_same(r: Seq<Found>, q: Seq<Found>, o: u64) -> bool {
    match (inode_in(r, o), inode_in(q, o)) {
        (Ok(a), Ok(b)) => inode_size(a) == inode_size(b) && a.create_time == b.create_time
            && a.modify_time == b.modify_time,
        (Err(_), Err(_)) => true,
        _ => false,
    }
}

/// Whether a directory record names the object `oid`.
pub open spec fn names_object(f: Found, oid: u64) -> bool {
    named_drec(f) matches Some((_, d)) && d.file_id == oid
}

/// Whether no directory record names `oid`, and it has none of its own.
pub open spec fn unnamed(r: Seq<Found>, oid: u64) -> bool {
    &&& picked(r, oid, J_TYPE_DIR_REC).len() == 0
    &&& forall|o: u64, k: int|
        0 <= k < picked(r, o, J_TYPE_DIR_REC).len() ==> !names_object(
            #[trigger] picked(r, o, J_TYPE_DIR_REC)[k],
            oid,
        )
}

/// Whether no directory record names `oid` but that of `name` in `dir`.
pub open spec fn named_only(r: Seq<Found>, oid: u64, dir: u64, name: Seq<char>) -> bool {
    forall|o: u64, k: int|
        0 <= k < picked(r, o, J_TYPE_DIR_REC).len() && names_object(
            #[trigger] picked(r, o, J_TYPE_DIR_REC)[k],
            oid,
        ) ==> o == dir && (named_drec(picked(r, o, J_TYPE_DIR_REC)[k])->0).0 == name
}

/// The entry of `name` in the listing of `dir`.
pub open spec fn listed_entry(r: Seq<Found>, dir: u64, name: Seq<char>) -> DirEntryView {
    let d = drec_in(r, dir, name)->Ok_0;
    entry_with(name, d, inode_in(r, d.file_id))
}

/// The entry that a directory has of what is created at `path`.
pub open spec fn new_entry(v: VolumeView, path: Seq<char>, is_dir: bool, now: i64) -> DirEntryView {
    entry_with(
        base_part(trimmed(path)),
        new_drec(v.next_obj_id, is_dir, now),
        Ok(new_inode(v.parent_of(path)->Ok_0, v.next_obj_id, is_dir, now)),
    )
}

/// The entry that a directory has of what was moved into it.
pub open spec fn moved_entry(mv: Move, to_name: Seq<char>, now: i64) -> DirEntryView {
    entry_with(
        to_name,
        DrecVal { file_id: mv.oid, date_added: now, flags: drec_type(mv.inode) },
        Ok(mv.inode),
    )
}

/// Entries whose inodes look the same are the same.
proof fn lemma_entries_same(r: Seq<Found>, q: Seq<Found>, found: Seq<Found>, i: int)
    requires
        0 <= i,
        forall|k: int|
            0 <= k < found.len() ==> (named_drec(#[trigger] found[k]) matches Some((_, d))
                ==> looks_same(r, q, d.file_id)),
    ensures
        entries_in(q, found, i) == entries_in(r, found, i),
    decreases found.len() - i,
{
    if i < found.len() {
        lemma_entries_same(r, q, found, i + 1);
        assert(named_drec(found[i]) == named_drec(found[i]));
    }
}

/// The entries of two parts are those of the one and then those of the other.
proof fn lemma_entries_cat(r: Seq<Found>, x: Seq<Found>, y: Seq<Found>, i: int)
    requires
        0 <= i <= x.len(),
    ensures
        entries_in(r, x + y, i) == entries_in(r, x, i) + entries_in(r, y, 0),
    decreases x.len() - i,
{
    if i < x.len() {
        assert((x + y)[i] == x[i]);
        lemma_entries_cat(r, x, y, i + 1);
        assert(entries_in(r, x + y, i) =~= entries_in(r, x, i) + entries_in(r, y, 0));
    } else {
        lemma_entries_behind(r, x, y, 0);
        assert(entries_in(r, x, i) + entries_in(r, y, 0) =~= entries_in(r, y, 0));
    }
}

proof fn lemma_entries_behind(r: Seq<Found>, x: Seq<Found>, y: Seq<Found>, j: int)
    requires
        0 <= j <= y.len(),
    ensures
        entries_in(r, x + y, x.len() + j) == entries_in(r, y, j),
    decreases y.len() - j,
{
    if j < y.len() {
        assert((x + y)[x.len() + j] == y[j]);
        lemma_entries_behind(r, x, y, j + 1);
    }
}

/// Where inodes look the same, directories are the same.
proof fn lemma_dirs_look(r: Seq<Found>, q: Seq<Found>, at: Seq<Found>)
    requires
        forall|o: u64, k: int|
            0 <= k < picked(at, o, J_TYPE_DIR_REC).len() ==> (named_drec(
                #[trigger] picked(at, o, J_TYPE_DIR_REC)[k],
            ) matches Some((_, d)) ==> looks_same(r, q, d.file_id)),
    ensures
        dirs_at(r, at) == dirs_at(q, at),
{
    assert forall|o: u64| #[trigger] dirs_at(r, at)(o) == dirs_at(q, at)(o) by {
        let found = picked(at, o, J_TYPE_DIR_REC);
        assert forall|k: int| 0 <= k < found.len() implies (named_drec(
            #[trigger] found[k],
        ) matches Some((_, d)) ==> looks_same(r, q, d.file_id)) by {
            assert(found[k] == picked(at, o, J_TYPE_DIR_REC)[k]);
        }
        lemma_entries_same(r, q, found, 0);
    }
    assert(dirs_at(r, at) =~= dirs_at(q, at));
}

/// The directories of a volume are those of its records.
proof fn lemma_dirs_of(v: VolumeView, t: Tree)
    requires
        v.has_catalog(t),
    ensures
        dirs_of(v) == dirs_at(recs(t), recs(t)),
        v.walk() == walk_all(dirs_at(recs(t), recs(t))),
{
    assert forall|o: u64| #[trigger] dirs_of(v)(o) == dirs_at(recs(t), recs(t))(o) by {
        law_volume_shows_records(v, t, seq![], o);
        assert(directory_in(recs(t), o) == entries_in(
            recs(t),
            picked(recs(t), o, J_TYPE_DIR_REC),
            0,
        ));
    }
    assert(dirs_of(v) =~= dirs_at(recs(t), recs(t)));
    lemma_volume_walk(v);
}

/// A directory record more is an entry more.
proof fn lemma_dirs_put(
    r: Seq<Found>,
    q: Seq<Found>,
    p: Seq<Found>,
    dir: u64,
    at: (Seq<Found>, Found, Seq<Found>),
    name: Seq<char>,
    d: DrecVal,
)
    requires
        drec_put(q, p, dir, at),
        named_drec(at.1) == Some((name, d)),
    ensures
        entry_put(
            dirs_at(r, q),
            dirs_at(r, p),
            dir,
            entries_in(r, at.0, 0),
            entry_with(name, d, inode_in(r, d.file_id)),
            entries_in(r, at.2, 0),
        ),
{
    let one = seq![at.1];
    lemma_entries_cat(r, at.0, at.2, 0);
    lemma_entries_cat(r, at.0 + one, at.2, 0);
    lemma_entries_cat(r, at.0, one, 0);
    reveal_with_fuel(entries_in, 2);
    assert(one[0] == at.1);
    assert(entries_in(r, one, 0) =~= seq![entry_with(name, d, inode_in(r, d.file_id))]);
    assert forall|o: u64| o != dir implies #[trigger] dirs_at(r, p)(o) == dirs_at(r, q)(o) by {
        assert(picked(p, o, J_TYPE_DIR_REC) == picked(q, o, J_TYPE_DIR_REC));
    }
}

/// What directories hold before and after an entry was created, with the
/// inodes as they are afterwards.
proof fn lemma_created_dirs(
    r: Seq<Found>,
    q: Seq<Found>,
    oid: u64,
    i: InodeVal,
    dir: u64,
    name: Seq<char>,
    d: DrecVal,
)
    requires
        entry_created(r, q, oid, i, dir, name, d),
        unnamed(r, oid),
    ensures
        dirs_at(r, r) == dirs_at(q, r),
{
    assert forall|o: u64, k: int| 0 <= k < picked(r, o, J_TYPE_DIR_REC).len() implies (named_drec(
        #[trigger] picked(r, o, J_TYPE_DIR_REC)[k],
    ) matches Some((_, e)) ==> looks_same(r, q, e.file_id)) by {
        let f = picked(r, o, J_TYPE_DIR_REC)[k];
        if let Some((_, e)) = named_drec(f) {
            assert(!names_object(f, oid));
            if e.file_id != dir {
                assert(inode_in(q, e.file_id) == inode_in(r, e.file_id));
            }
        }
    }
    lemma_dirs_look(r, q, r);
}

/// A walk after an entry was created shows the new entry wherever it shows
/// the directory, and else what it showed before. A new file does not stop
/// it; a new directory may be one too deep.
#[verifier::rlimit(40)]
pub proof fn law_created_entry_is_walked(
    v: VolumeView,
    t: Tree,
    m: Set<u64>,
    path: Seq<char>,
    who: Seq<char>,
    is_dir: bool,
    now: i64,
)
    requires
        v.sound(t, m),
        v.create(path, who, is_dir, now).0 is Ok,
        can_create(v, t, path),
        unnamed(recs(t), v.next_obj_id),
        v.walk() is Ok,
        is_dir ==> v.create(path, who, is_dir, now).1.walk() is Ok,
    ensures
        ({
            let w = v.create(path, who, is_dir, now).1;
            let dir = v.parent_of(path)->Ok_0;
            let e = new_entry(v, path, is_dir, now);
            &&& w.walk() is Ok
            &&& all_grown_by(dirs_of(w), v.walk()->Ok_0, w.walk()->Ok_0, dir, e)
            &&& forall|at: Seq<char>, x: WalkEntryView| #[trigger]
                shown(dirs_of(w), e, at, x) == (x == walked(at, e))
        }),
{
    reveal(VolumeView::create);
    let w = v.create(path, who, is_dir, now).1;
    let oid = v.next_obj_id;
    let parent = parent_path(parent_part(trimmed(path)));
    let name = base_part(trimmed(path));
    let v1 = VolumeView { next_obj_id: (oid + 1) as u64, ..v };
    let r = recs(t);
    assert(v1.sound(t, m));
    let dir = dir_walk(r, components(parent), 0, ROOT_DIR_RECORD)->0;
    law_volume_shows_records(v, t, parent, 0);
    lemma_walk_entry(r, components(parent), name, 0, ROOT_DIR_RECORD);
    assert(v.parent_of(path) == Ok::<u64, Fault>(dir));
    assert(v1.hashed_key(dir, name) == v.hashed_key(dir, name));
    let (x, f, y) = lemma_created(v1, t, m, oid, dir, name, is_dir, now);
    let s = v1.created(oid, dir, name, is_dir, now)->Ok_0;
    lemma_commit(v1, t, m, s);
    let u = tree_after(t, s, v.nx);
    let q = recs(u);
    let i = new_inode(dir, oid, is_dir, now);
    let d = new_drec(oid, is_dir, now);
    let e = entry_with(name, d, Ok(i));
    lemma_dirs_of(v, t);
    lemma_dirs_of(w, u);
    lemma_created_dirs(r, q, oid, i, dir, name, d);
    lemma_dirs_put(q, r, q, dir, (x, f, y), name, d);
    let a = entries_in(q, x, 0);
    let b = entries_in(q, y, 0);
    assert(8u16 & 0x000F == 8) by (bit_vector);
    lemma_all_ends(dirs_at(q, r), dirs_at(q, q), dir, a, e, b);
    lemma_all_grown(dirs_at(q, r), dirs_at(q, q), dir, a, e, b);
    assert(picked(q, oid, J_TYPE_DIR_REC) == picked(r, oid, J_TYPE_DIR_REC));
    assert(entries_in(q, picked(q, oid, J_TYPE_DIR_REC), 0) =~= seq![]);
    assert forall|at: Seq<char>, x: WalkEntryView| #[trigger]
        shown(dirs_of(w), e, at, x) == (x == walked(at, e)) by {
        lemma_shown_alone(dirs_of(w), e, at, x);
    }
}

/// What directories hold before and after an entry was removed, with the
/// inodes as they were before.
proof fn lemma_removed_dirs(
    r: Seq<Found>,
    q: Seq<Found>,
    oid: u64,
    dir: u64,
    name: Seq<char>,
    at: (Seq<Found>, Found, Seq<Found>),
)
    requires
        entry_removed(r, q, oid, dir, name),
        drec_taken(r, q, dir, name, at),
        names_once(picked(r, dir, J_TYPE_DIR_REC), name),
        drec_in(r, dir, name) matches Ok(d) && d.file_id == oid,
        named_only(r, oid, dir, name),
    ensures
        dirs_at(q, q) == dirs_at(r, q),
        entry_put(
            dirs_at(r, q),
            dirs_at(r, r),
            dir,
            entries_in(r, at.0, 0),
            listed_entry(r, dir, name),
            entries_in(r, at.2, 0),
        ),
{
    let (x, f, y) = at;
    lemma_once(x, f, y, name);
    let d = drec_in(r, dir, name)->Ok_0;
    assert(named_drec(f) == Some((name, d)));
    assert forall|o: u64, k: int| 0 <= k < picked(q, o, J_TYPE_DIR_REC).len() implies (named_drec(
        #[trigger] picked(q, o, J_TYPE_DIR_REC)[k],
    ) matches Some((_, e)) ==> looks_same(q, r, e.file_id)) by {
        let g = picked(q, o, J_TYPE_DIR_REC)[k];
        if let Some((nm, e)) = named_drec(g) {
            if o == dir {
                let c = if k < x.len() {
                    k
                } else {
                    k + 1
                };
                let all = picked(r, dir, J_TYPE_DIR_REC);
                assert(all[c] == g);
                assert(all[x.len() as int] == f);
                assert(nm != name);
                assert(!names_object(all[c], oid));
            } else {
                assert(picked(q, o, J_TYPE_DIR_REC) == picked(r, o, J_TYPE_DIR_REC));
                assert(!names_object(picked(r, o, J_TYPE_DIR_REC)[k], oid));
            }
            assert(e.file_id != oid);
            if e.file_id != dir {
                assert(inode_in(q, e.file_id) == inode_in(r, e.file_id));
            }
        }
    }
    lemma_dirs_look(q, r, q);
    assert forall|o: u64| o != dir implies #[trigger] picked(r, o, J_TYPE_DIR_REC) == picked(
        q,
        o,
        J_TYPE_DIR_REC,
    ) by {}
    lemma_dirs_put(r, q, r, dir, at, name, d);
}

/// What a path names has a directory record in its directory.
proof fn lemma_named_in(v: VolumeView, t: Tree, path: Seq<char>, dir: u64)
    requires
        v.has_catalog(t),
        trimmed(path).len() > 0,
        v.resolve(path) is Ok,
        dir_walk(
            recs(t),
            components(parent_path(parent_part(trimmed(path)))),
            0,
            ROOT_DIR_RECORD,
        ) == Some(dir),
    ensures
        drec_in(recs(t), dir, base_part(trimmed(path))) matches Ok(d) && d.file_id
            == (v.resolve(path)->Ok_0).0,
{
    let parent = parent_path(parent_part(trimmed(path)));
    law_volume_shows_records(v, t, path, 0);
    law_names_of_parent_and_entry(path);
    lemma_walk_entry(
        recs(t),
        components(parent),
        base_part(trimmed(path)),
        0,
        ROOT_DIR_RECORD,
    );
}

/// Whether a walk that showed the entry of `path` in `dir` shows it no more,
/// and else what it showed.
pub open spec fn walk_lost(
    v: VolumeView,
    w: VolumeView,
    r: Seq<Found>,
    dir: u64,
    name: Seq<char>,
) -> bool {
    let e = listed_entry(r, dir, name);
    &&& w.walk() is Ok
    &&& all_grown_by(dirs_of(v), w.walk()->Ok_0, v.walk()->Ok_0, dir, e)
    &&& forall|at: Seq<char>, x: WalkEntryView| #[trigger]
        shown(dirs_of(v), e, at, x) == (x == walked(at, e))
}

proof fn lemma_walk_lost(
    v: VolumeView,
    w: VolumeView,
    t: Tree,
    u: Tree,
    path: Seq<char>,
    oid: u64,
    dir: u64,
    at: (Seq<Found>, Found, Seq<Found>),
)
    requires
        v.has_catalog(t),
        w.has_catalog(u),
        trimmed(path).len() > 0,
        v.resolve(path) matches Ok((o, _)) && o == oid,
        can_remove(t, path, dir),
        entry_removed(recs(t), recs(u), oid, dir, base_part(trimmed(path))),
        drec_taken(recs(t), recs(u), dir, base_part(trimmed(path)), at),
        named_only(recs(t), oid, dir, base_part(trimmed(path))),
        v.walk() is Ok,
    ensures
        walk_lost(v, w, recs(t), dir, base_part(trimmed(path))),
{
    let r = recs(t);
    let q = recs(u);
    let name = base_part(trimmed(path));
    let e = listed_entry(r, dir, name);
    let a = entries_in(r, at.0, 0);
    let b = entries_in(r, at.2, 0);
    lemma_dirs_of(v, t);
    lemma_dirs_of(w, u);
    lemma_named_in(v, t, path, dir);
    lemma_removed_dirs(r, q, oid, dir, name, at);
    lemma_all_ends(dirs_at(r, q), dirs_at(r, r), dir, a, e, b);
    lemma_all_grown(dirs_at(r, q), dirs_at(r, r), dir, a, e, b);
    if e.kind == EntryKind::Directory {
        assert(picked(r, oid, J_TYPE_DIR_REC).len() == 0);
        assert(entries_in(r, picked(r, oid, J_TYPE_DIR_REC), 0) =~= seq![]);
    }
    assert forall|p: Seq<char>, x: WalkEntryView| #[trigger]
        shown(dirs_of(v), e, p, x) == (x == walked(p, e)) by {
        lemma_shown_alone(dirs_of(v), e, p, x);
    }
}

/// A walk after a file was unlinked lacks its entry wherever it shows the
/// directory, and else shows what it showed before.
pub proof fn law_unlinked_entry_is_not_walked(
    v: VolumeView,
    t: Tree,
    m: Set<u64>,
    path: Seq<char>,
)
    requires
        v.sound(t, m),
        v.unlink(path).0 is Ok,
        can_remove(t, path, (v.resolve(path)->Ok_0).1.parent_id),
        named_only(
            recs(t),
            (v.resolve(path)->Ok_0).0,
            (v.resolve(path)->Ok_0).1.parent_id,
            base_part(trimmed(path)),
        ),
        v.walk() is Ok,
    ensures
        walk_lost(
            v,
            v.unlink(path).1,
            recs(t),
            (v.resolve(path)->Ok_0).1.parent_id,
            base_part(trimmed(path)),
        ),
{
    let (oid, inode) = v.resolve(path)->Ok_0;
    let dir = inode.parent_id;
    let sid = inode.private_id;
    let name = base_part(trimmed(path));
    let at = lemma_unlinked(v, t, m, oid, sid, dir, name);
    let s = v.unlinked(oid, sid, dir, name)->Ok_0;
    lemma_commit(v, t, m, s);
    lemma_walk_lost(v, v.unlink(path).1, t, tree_after(t, s, v.nx), path, oid, dir, at);
}

/// A walk after a directory was removed lacks its entry wherever it shows the
/// directory that it was in, and else shows what it showed before.
pub proof fn law_removed_directory_is_not_walked(
    v: VolumeView,
    t: Tree,
    m: Set<u64>,
    path: Seq<char>,
)
    requires
        v.sound(t, m),
        v.remove_directory(path).0 is Ok,
        can_remove(t, path, (v.resolve(path)->Ok_0).1.parent_id),
        named_only(
            recs(t),
            (v.resolve(path)->Ok_0).0,
            (v.resolve(path)->Ok_0).1.parent_id,
            base_part(trimmed(path)),
        ),
        v.walk() is Ok,
    ensures
        walk_lost(
            v,
            v.remove_directory(path).1,
            recs(t),
            (v.resolve(path)->Ok_0).1.parent_id,
            base_part(trimmed(path)),
        ),
{
    let (oid, inode) = v.resolve(path)->Ok_0;
    let dir = inode.parent_id;
    let name = base_part(trimmed(path));
    let at = lemma_directory_removed(v, t, m, oid, dir, name);
    let s = v.directory_removed(oid, dir, name)->Ok_0;
    lemma_commit(v, t, m, s);
    lemma_walk_lost(v, v.remove_directory(path).1, t, tree_after(t, s, v.nx), path, oid, dir, at);
}

/// A move leaves what listings tell of inodes.
proof fn lemma_moved_dirs(
    r: Seq<Found>,
    q: Seq<Found>,
    mv: Move,
    from_name: Seq<char>,
    to_name: Seq<char>,
    d: DrecVal,
    now: i64,
)
    requires
        entry_moved(r, q, mv.oid, mv.from_parent, from_name, mv.to_parent, to_name, d, now),
        forall|o: u64| #[trigger] inode_in(r, o) is Err ==> inode_in(q, o) is Err,
    ensures
        dirs_at(q, q) == dirs_at(r, q),
{
    assert forall|o: u64| #[trigger] looks_same(q, r, o) by {
        if inode_in(r, o) is Ok {
            let i = inode_in(r, o)->Ok_0;
            let j = moved_inode(o, i, mv.oid, mv.from_parent, mv.to_parent, now);
            assert(inode_size(j) == inode_size(i));
        } else {
            assert(inode_in(r, o) is Err);
        }
    }
    lemma_dirs_look(q, r, q);
}

/// Whether two walks show the same, but for one entry and what is under it,
/// which the first shows in one directory and the second in another.
pub open spec fn walk_moved(
    v: VolumeView,
    w: VolumeView,
    from: (u64, DirEntryView),
    to: (u64, DirEntryView),
) -> bool {
    exists|rest: Seq<WalkEntryView>| #[trigger] walk_around(v, w, from, to, rest)
}

/// Whether `rest` is what two walks show around such an entry.
pub open spec fn walk_around(
    v: VolumeView,
    w: VolumeView,
    from: (u64, DirEntryView),
    to: (u64, DirEntryView),
    rest: Seq<WalkEntryView>,
) -> bool {
    &&& all_grown_by(dirs_of(v), rest, v.walk()->Ok_0, from.0, from.1)
    &&& all_grown_by(dirs_of(w), rest, w.walk()->Ok_0, to.0, to.1)
}

/// A walk after a rename shows the object, with what is in it, under the new
/// name and no more under the old one, and else what it showed before. A
/// moved file does not stop it; a moved directory may come to lie too deep.
#[verifier::rlimit(40)]
pub proof fn law_renamed_entry_is_walked(
    v: VolumeView,
    t: Tree,
    m: Set<u64>,
    from: Seq<char>,
    to: Seq<char>,
    replace: bool,
    now: i64,
)
    requires
        v.sound(t, m),
        v.rename(from, to, replace, now).0 is Ok,
        trimmed(from) != trimmed(to),
        v.plan_move(from, to) matches Ok(mv) && mv.existing is None && can_rename(
            v,
            t,
            mv,
            from,
            to,
        ),
        v.walk() is Ok,
        moved_entry(v.plan_move(from, to)->Ok_0, base_part(trimmed(to)), now).kind
            == EntryKind::Directory ==> v.rename(from, to, replace, now).1.walk() is Ok,
    ensures
        ({
            let w = v.rename(from, to, replace, now).1;
            let mv = v.plan_move(from, to)->Ok_0;
            let from_name = base_part(trimmed(from));
            &&& w.walk() is Ok
            &&& walk_moved(
                v,
                w,
                (mv.from_parent, listed_entry(recs(t), mv.from_parent, from_name)),
                (mv.to_parent, moved_entry(mv, base_part(trimmed(to)), now)),
            )
        }),
{
    let mv = v.plan_move(from, to)->Ok_0;
    let from_name = base_part(trimmed(from));
    let to_name = base_part(trimmed(to));
    let (h, key) = v.hashed_key(mv.to_parent, to_name)->Ok_0;
    lemma_source_inode(v, t, from, mv);
    lemma_named_in(v, t, from, mv.from_parent);
    lemma_move_is_walked(v, t, m, mv, from_name, to_name, h, key, now);
}

/// A walk after an object was moved.
#[verifier::rlimit(40)]
proof fn lemma_move_is_walked(
    v: VolumeView,
    t: Tree,
    m: Set<u64>,
    mv: Move,
    from_name: Seq<char>,
    to_name: Seq<char>,
    h: u32,
    key: Seq<u8>,
    now: i64,
)
    requires
        v.sound(t, m),
        v.hashed_key(mv.to_parent, to_name) == Ok::<(u32, Seq<u8>), Fault>((h, key)),
        can_move(recs(t), t, mv, from_name, to_name, key),
        v.finish_move(mv, from_name, to_name, h, key, now).0 is Ok,
        drec_in(recs(t), mv.from_parent, from_name) is Ok,
        inode_in(recs(t), mv.oid) == Ok::<InodeVal, Fault>(mv.inode),
        v.walk() is Ok,
        moved_entry(mv, to_name, now).kind == EntryKind::Directory ==> v.finish_move(
            mv,
            from_name,
            to_name,
            h,
            key,
            now,
        ).1.walk() is Ok,
    ensures
        ({
            let w = v.finish_move(mv, from_name, to_name, h, key, now).1;
            &&& w.walk() is Ok
            &&& walk_moved(
                v,
                w,
                (mv.from_parent, listed_entry(recs(t), mv.from_parent, from_name)),
                (mv.to_parent, moved_entry(mv, to_name, now)),
            )
        }),
{
    let steps = lemma_renamed(v, t, m, mv, from_name, to_name, h, key, now);
    let s = v.renamed(mv, from_name, to_name, h, key, now)->Ok_0;
    lemma_commit(v, t, m, s);
    let u = tree_after(t, s, v.nx);
    let w = v.finish_move(mv, from_name, to_name, h, key, now).1;
    assert(w.has_catalog(u) && recs(u) == recs_with(t, s));
    assert(moves(recs(t), recs(u), mv, from_name, to_name, now, steps)) by {
        reveal(moves);
    }
    lemma_walk_moved(v, w, t, u, mv, from_name, to_name, now, steps);
}

/// A walk after an object was moved from one directory record to another.
proof fn lemma_walk_moved(
    v: VolumeView,
    w: VolumeView,
    t: Tree,
    u: Tree,
    mv: Move,
    from_name: Seq<char>,
    to_name: Seq<char>,
    now: i64,
    steps: MoveSteps,
)
    requires
        v.has_catalog(t),
        w.has_catalog(u),
        moves(recs(t), recs(u), mv, from_name, to_name, now, steps),
        v.walk() is Ok,
        moved_entry(mv, to_name, now).kind == EntryKind::Directory ==> w.walk() is Ok,
    ensures
        w.walk() is Ok,
        walk_moved(
            v,
            w,
            (mv.from_parent, listed_entry(recs(t), mv.from_parent, from_name)),
            (mv.to_parent, moved_entry(mv, to_name, now)),
        ),
{
    lemma_dirs_of(v, t);
    lemma_dirs_of(w, u);
    lemma_moved_walks(recs(t), recs(u), mv, from_name, to_name, now, steps);
    let rest = walk_all(dirs_at(recs(t), steps.mid))->Ok_0;
    let e = listed_entry(recs(t), mv.from_parent, from_name);
    let e2 = moved_entry(mv, to_name, now);
    assert(walk_around(v, w, (mv.from_parent, e), (mv.to_parent, e2), rest));
}

/// What a move does to the records, in two steps.
#[verifier::opaque]
pub open spec fn moves(
    r: Seq<Found>,
    q: Seq<Found>,
    mv: Move,
    from_name: Seq<char>,
    to_name: Seq<char>,
    now: i64,
    steps: MoveSteps,
) -> bool {
    let d = DrecVal { file_id: mv.oid, date_added: now, flags: drec_type(mv.inode) };
    &&& entry_moved(r, q, mv.oid, mv.from_parent, from_name, mv.to_parent, to_name, d, now)
    &&& forall|o: u64| #[trigger] inode_in(r, o) is Err ==> inode_in(q, o) is Err
    &&& drec_taken(r, steps.mid, mv.from_parent, from_name, steps.out)
    &&& drec_put(steps.mid, q, mv.to_parent, steps.new)
    &&& named_drec(steps.new.1) == Some((to_name, d))
    &&& names_once(picked(r, mv.from_parent, J_TYPE_DIR_REC), from_name)
    &&& drec_in(r, mv.from_parent, from_name) is Ok
    &&& inode_in(r, mv.oid) == Ok::<InodeVal, Fault>(mv.inode)
}

/// The walks before, between and after the two steps of a move.
proof fn lemma_moved_walks(
    r: Seq<Found>,
    q: Seq<Found>,
    mv: Move,
    from_name: Seq<char>,
    to_name: Seq<char>,
    now: i64,
    steps: MoveSteps,
)
    requires
        moves(r, q, mv, from_name, to_name, now, steps),
        walk_all(dirs_at(r, r)) is Ok,
        moved_entry(mv, to_name, now).kind == EntryKind::Directory ==> walk_all(
            dirs_at(q, q),
        ) is Ok,
    ensures
        walk_all(dirs_at(q, q)) is Ok,
        walk_all(dirs_at(r, steps.mid)) is Ok,
        all_grown_by(
            dirs_at(r, r),
            walk_all(dirs_at(r, steps.mid))->Ok_0,
            walk_all(dirs_at(r, r))->Ok_0,
            mv.from_parent,
            listed_entry(r, mv.from_parent, from_name),
        ),
        all_grown_by(
            dirs_at(q, q),
            walk_all(dirs_at(r, steps.mid))->Ok_0,
            walk_all(dirs_at(q, q))->Ok_0,
            mv.to_parent,
            moved_entry(mv, to_name, now),
        ),
{
    reveal(moves);
    let fd = mv.from_parent;
    let td = mv.to_parent;
    let d = DrecVal { file_id: mv.oid, date_added: now, flags: drec_type(mv.inode) };
    lemma_moved_dirs(r, q, mv, from_name, to_name, d, now);
    let (x, f, y) = steps.out;
    lemma_once(x, f, y, from_name);
    let was = drec_in(r, fd, from_name)->Ok_0;
    assert(named_drec(f) == Some((from_name, was)));
    let e = listed_entry(r, fd, from_name);
    let e2 = moved_entry(mv, to_name, now);
    assert(drec_put(steps.mid, r, fd, steps.out)) by {
        assert forall|o: u64| o != fd implies #[trigger] picked(r, o, J_TYPE_DIR_REC) == picked(
            steps.mid,
            o,
            J_TYPE_DIR_REC,
        ) by {}
    }
    lemma_dirs_put(r, steps.mid, r, fd, steps.out, from_name, was);
    lemma_dirs_put(r, steps.mid, q, td, steps.new, to_name, d);
    let mid = dirs_at(r, steps.mid);
    let a = entries_in(r, x, 0);
    let b = entries_in(r, y, 0);
    let a2 = entries_in(r, steps.new.0, 0);
    let b2 = entries_in(r, steps.new.2, 0);
    lemma_all_ends(mid, dirs_at(r, r), fd, a, e, b);
    lemma_all_ends(mid, dirs_at(r, q), td, a2, e2, b2);
    lemma_all_grown(mid, dirs_at(r, r), fd, a, e, b);
    lemma_all_grown(mid, dirs_at(r, q), td, a2, e2, b2);
}

/// The inode that a move found is that of the object.
proof fn lemma_source_inode(v: VolumeView, t: Tree, from: Seq<char>, mv: Move)
    requires
        v.has_catalog(t),
        v.resolve(from) == Ok::<(u64, InodeVal), Fault>((mv.oid, mv.inode)),
    ensures
        inode_in(recs(t), mv.oid) == Ok::<InodeVal, Fault>(mv.inode),
{
    law_volume_shows_records(v, t, from, 0);
    lemma_walk_inode(recs(t), components(from), 0, ROOT_DIR_RECORD);
}

} // verus!
