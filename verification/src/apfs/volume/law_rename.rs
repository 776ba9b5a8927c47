//! What a volume shows after an entry was renamed.

use crate::apfs::btree::node::NodeView;
use crate::apfs::btree::records::law_entries_are_records;
use crate::apfs::btree::search::Found;
use crate::apfs::catalog::edit::{lemma_with_fixed, record_entry, reparent, with_fixed};
use crate::apfs::catalog::query::named_drec;
use crate::apfs::catalog::records::{
    drec_bytes, drec_file_type, drec_key, inode_outcome, law_drec_key_keeps_name,
    law_drec_roundtrip, mode_kind, DT_DIR, DrecVal, FileExtentVal, INODE_DIR_TYPE, InodeVal,
    J_TYPE_DIR_REC, J_TYPE_FILE_EXTENT, J_TYPE_INODE, ROOT_DIR_RECORD,
};
use crate::apfs::error::Fault;
use crate::apfs::extents::fork_prefix;
use crate::apfs::packed::KIND_UNIT;
use crate::apfs::path::{
    base_part, components, law_names_of_parent_and_entry, law_slash_joins_names, parent_part, parent_path, trimmed,
};
use crate::apfs::transaction::{in_ring, next_commit_xid};
use crate::apfs::volume::commit::{lemma_commit, settled, tree_after};
use crate::apfs::volume::effects::{
    lemma_clear_kept, lemma_commit_file, lemma_hit_leaf, spans_clear,
};
use crate::apfs::volume::law_create::{counted, entry_added, lemma_count_in, lemma_put_drec};
use crate::apfs::volume::law_remove::{
    can_remove, drec_taken, entry_removed, lemma_count_off, lemma_drec_taken, lemma_drop_drec,
    lemma_entry_gone, lemma_matching, lemma_name_gone, lemma_unlinked, uncounted,
};
use crate::apfs::volume::laws::{files_kept, lemma_resolve_inode};
use crate::apfs::volume::listing::{lacks, law_listing_agrees_with_lookup, lists};
use crate::apfs::volume::model::{drec_in, extents_in, inode_in, law_volume_shows_records, walk_in};
use crate::apfs::volume::names::{
    dir_walk, lemma_dir_walk_entry, lemma_named_among, lemma_no_name, lemma_walk_entry,
    lemma_walk_through, lemma_walk_under, lemma_walk_without, names_entry, names_once, path_avoids,
};
use crate::apfs::volume::place::{lemma_reaches_kept, reaches};
use crate::apfs::volume::remount::{follows, lemma_commit_follows};
use crate::apfs::volume::rename::{drec_type, no_source, Move};
use crate::apfs::volume::state::VolumeView;
use crate::apfs::volume::steps::{lemma_load, lemma_step_replace, only, recs_with, touched_ok};
use crate::apfs::volume::tree::{picked, recs, Tree};
use vstd::prelude::*;

verus! {

/// The inode of an object that was moved to another directory.
pub open spec fn reparented(i: InodeVal, dir: u64, now: i64) -> InodeVal {
    InodeVal { parent_id: dir, change_time: now, ..i }
}

/// An inode is given another parent in a touched leaf.
pub proof fn lemma_reparent(
    v: VolumeView,
    t: Tree,
    m: Set<u64>,
    s: Seq<(u64, NodeView)>,
    p: u64,
    oid: u64,
    dir: u64,
    now: i64,
    f: spec_fn(NodeView) -> (Result<int, Fault>, NodeView),
)
    requires
        v.sound(t, m),
        touched_ok(t, s),
        v.record_leaf(oid, J_TYPE_INODE) == Ok::<u64, Fault>(p),
        forall|n: NodeView| #[trigger] f(n) == reparent(n, oid, dir, now),
        v.change(s, p, f).0 is Ok,
    ensures
        touched_ok(t, v.change(s, p, f).1),
        only(recs_with(t, s), recs_with(t, v.change(s, p, f).1), oid, J_TYPE_INODE),
        inode_in(recs_with(t, s), oid) matches Ok(i) && inode_in(
            recs_with(t, v.change(s, p, f).1),
            oid,
        ) == Ok::<InodeVal, Fault>(reparented(i, dir, now)),
{
    lemma_hit_leaf(v, t, oid, J_TYPE_INODE, p);
    lemma_load(v, t, m, s, p);
    let n = v.load(s, p).0->Ok_0;
    assert(f(n) == reparent(n, oid, dir, now));
    lemma_matching(n, oid, J_TYPE_INODE, None, 0);
    let k = record_entry(n, oid, J_TYPE_INODE, None)->Ok_0->0;
    law_entries_are_records(n, k, 0, 0);
    let old = n.value(k, 0)->Ok_0;
    let i = inode_outcome(old)->Ok_0;
    let new = with_fixed(old, reparented(i, dir, now));
    lemma_with_fixed(old, reparented(i, dir, now));
    let (x, g, y) = lemma_step_replace(v, t, m, s, p, k, new, oid, J_TYPE_INODE);
    assert(x + seq![g] + y =~= seq![g]);
    assert(x + seq![(g.0, new, p)] + y =~= seq![(g.0, new, p)]);
}

/// Whether an entry has gone from one place to another among the records, and
/// all other names, inodes and extents are as `g` says or as before.
pub open spec fn entry_moved(
    r: Seq<Found>,
    q: Seq<Found>,
    oid: u64,
    from_dir: u64,
    from_name: Seq<char>,
    to_dir: u64,
    to_name: Seq<char>,
    d: DrecVal,
    now: i64,
) -> bool {
    &&& drec_in(q, to_dir, to_name) == Ok::<DrecVal, Fault>(d)
    &&& (from_dir, from_name) != (to_dir, to_name)
    &&& drec_in(q, from_dir, from_name) == Err::<DrecVal, Fault>(Fault::NotFound(from_name))
    &&& forall|o: u64, nm: Seq<char>|
        (o, nm) != (from_dir, from_name) && (o, nm) != (to_dir, to_name) ==> #[trigger] drec_in(
            q,
            o,
            nm,
        ) == drec_in(r, o, nm)
    &&& forall|o: u64| #[trigger]
        inode_in(r, o) is Ok ==> inode_in(q, o) == Ok::<InodeVal, Fault>(
            moved_inode(o, inode_in(r, o)->Ok_0, oid, from_dir, to_dir, now),
        )
    &&& forall|o: u64| #[trigger] extents_in(q, o) == extents_in(r, o)
}

/// An inode after `oid` was moved from one directory to another.
pub open spec fn moved_inode(
    o: u64,
    i: InodeVal,
    oid: u64,
    from_dir: u64,
    to_dir: u64,
    now: i64,
) -> InodeVal {
    if from_dir == to_dir {
        i
    } else if o == oid {
        reparented(i, to_dir, now)
    } else if o == from_dir {
        uncounted(i)
    } else if o == to_dir {
        counted(i)
    } else {
        i
    }
}

/// The steps of renaming inside one directory, on the records alone.
proof fn lemma_renamed_records(
    r0: Seq<Found>,
    r1: Seq<Found>,
    r2: Seq<Found>,
    oid: u64,
    from_dir: u64,
    from_name: Seq<char>,
    to_dir: u64,
    to_name: Seq<char>,
    d: DrecVal,
)
    requires
        only(r0, r1, from_dir, J_TYPE_DIR_REC),
        drec_in(r1, from_dir, from_name) == Err::<DrecVal, Fault>(Fault::NotFound(from_name)),
        forall|o: u64, nm: Seq<char>|
            (o, nm) != (from_dir, from_name) ==> #[trigger] drec_in(r1, o, nm) == drec_in(
                r0,
                o,
                nm,
            ),
        only(r1, r2, to_dir, J_TYPE_DIR_REC),
        entry_added(r1, r2, to_dir, to_name, d),
    ensures
        drec_in(r2, to_dir, to_name) == Ok::<DrecVal, Fault>(d),
        (from_dir, from_name) != (to_dir, to_name) ==> drec_in(r2, from_dir, from_name) == Err::<
            DrecVal,
            Fault,
        >(Fault::NotFound(from_name)),
        forall|o: u64, nm: Seq<char>|
            (o, nm) != (from_dir, from_name) && (o, nm) != (to_dir, to_name)
                ==> #[trigger] drec_in(r2, o, nm) == drec_in(r0, o, nm),
        forall|o: u64| #[trigger] picked(r2, o, J_TYPE_INODE) == picked(r0, o, J_TYPE_INODE),
        forall|o: u64| #[trigger]
            picked(r2, o, J_TYPE_FILE_EXTENT) == picked(r0, o, J_TYPE_FILE_EXTENT),
{
    if (from_dir, from_name) != (to_dir, to_name) {
        assert(drec_in(r2, from_dir, from_name) == drec_in(r1, from_dir, from_name));
    }
    assert forall|o: u64, nm: Seq<char>|
        (o, nm) != (from_dir, from_name) && (o, nm) != (to_dir, to_name) implies #[trigger] drec_in(
        r2,
        o,
        nm,
    ) == drec_in(r0, o, nm) by {
        assert(drec_in(r1, o, nm) == drec_in(r0, o, nm));
    }
    assert forall|o: u64| #[trigger] picked(r2, o, J_TYPE_INODE) == picked(r0, o, J_TYPE_INODE) by {
        assert(picked(r1, o, J_TYPE_INODE) == picked(r0, o, J_TYPE_INODE));
    }
    assert forall|o: u64| #[trigger] picked(r2, o, J_TYPE_FILE_EXTENT) == picked(
        r0,
        o,
        J_TYPE_FILE_EXTENT,
    ) by {
        assert(picked(r1, o, J_TYPE_FILE_EXTENT) == picked(r0, o, J_TYPE_FILE_EXTENT));
    }
}

/// The steps of moving to another directory, on the records alone.
proof fn lemma_moved_records(
    r: Seq<Found>,
    r1: Seq<Found>,
    r2: Seq<Found>,
    r3: Seq<Found>,
    oid: u64,
    from_dir: u64,
    to_dir: u64,
    now: i64,
)
    requires
        from_dir != to_dir,
        oid != from_dir,
        oid != to_dir,
        only(r, r1, from_dir, J_TYPE_INODE),
        inode_in(r, from_dir) matches Ok(i) && inode_in(r1, from_dir) == Ok::<InodeVal, Fault>(
            uncounted(i),
        ),
        only(r1, r2, to_dir, J_TYPE_INODE),
        inode_in(r1, to_dir) matches Ok(i) && inode_in(r2, to_dir) == Ok::<InodeVal, Fault>(
            counted(i),
        ),
        only(r2, r3, oid, J_TYPE_INODE),
        inode_in(r2, oid) matches Ok(i) && inode_in(r3, oid) == Ok::<InodeVal, Fault>(
            reparented(i, to_dir, now),
        ),
    ensures
        forall|o: u64| #[trigger]
            inode_in(r, o) is Ok ==> inode_in(r3, o) == Ok::<InodeVal, Fault>(
                moved_inode(o, inode_in(r, o)->Ok_0, oid, from_dir, to_dir, now),
            ),
        forall|o: u64| #[trigger] inode_in(r, o) is Err ==> inode_in(r3, o) is Err,
        forall|o: u64| #[trigger] picked(r3, o, J_TYPE_DIR_REC) == picked(r, o, J_TYPE_DIR_REC),
        forall|o: u64| #[trigger]
            picked(r3, o, J_TYPE_FILE_EXTENT) == picked(r, o, J_TYPE_FILE_EXTENT),
{
    let ino = J_TYPE_INODE;
    assert forall|o: u64| #[trigger] inode_in(r, o) is Ok implies inode_in(r3, o) == Ok::<
        InodeVal,
        Fault,
    >(moved_inode(o, inode_in(r, o)->Ok_0, oid, from_dir, to_dir, now)) by {
        if o != from_dir {
            assert(picked(r1, o, ino) == picked(r, o, ino));
        }
        if o != to_dir {
            assert(picked(r2, o, ino) == picked(r1, o, ino));
        }
        if o != oid {
            assert(picked(r3, o, ino) == picked(r2, o, ino));
        }
    }
    assert(picked(r1, oid, ino) == picked(r, oid, ino));
    assert(picked(r2, oid, ino) == picked(r1, oid, ino));
    assert(picked(r1, to_dir, ino) == picked(r, to_dir, ino));
    assert forall|o: u64| #[trigger] inode_in(r, o) is Err implies inode_in(r3, o) is Err by {
        assert(o != oid && o != from_dir && o != to_dir);
        assert(picked(r1, o, ino) == picked(r, o, ino));
        assert(picked(r2, o, ino) == picked(r1, o, ino));
        assert(picked(r3, o, ino) == picked(r2, o, ino));
    }
    assert forall|o: u64| #[trigger] picked(r3, o, J_TYPE_DIR_REC) == picked(
        r,
        o,
        J_TYPE_DIR_REC,
    ) by {
        assert(picked(r2, o, J_TYPE_DIR_REC) == picked(r1, o, J_TYPE_DIR_REC));
        assert(picked(r1, o, J_TYPE_DIR_REC) == picked(r, o, J_TYPE_DIR_REC));
    }
    assert forall|o: u64| #[trigger] picked(r3, o, J_TYPE_FILE_EXTENT) == picked(
        r,
        o,
        J_TYPE_FILE_EXTENT,
    ) by {
        assert(picked(r2, o, J_TYPE_FILE_EXTENT) == picked(r1, o, J_TYPE_FILE_EXTENT));
        assert(picked(r1, o, J_TYPE_FILE_EXTENT) == picked(r, o, J_TYPE_FILE_EXTENT));
    }
}

/// What a move asks of the catalog: the old name stands in its directory once,
/// the new one does not stand in its directory, and the new entry has a place.
pub open spec fn can_move(
    r: Seq<Found>,
    t: Tree,
    m: Move,
    from_name: Seq<char>,
    to_name: Seq<char>,
    key: Seq<u8>,
) -> bool {
    &&& names_once(picked(r, m.from_parent, J_TYPE_DIR_REC), from_name)
    &&& !names_entry(r, m.to_parent, to_name)
    &&& m.to_parent < KIND_UNIT
    &&& forall|i: int| 0 <= i < to_name.len() ==> (#[trigger] to_name[i]) != '\0'
    &&& reaches(t, key)
    &&& m.oid != m.from_parent
    &&& m.oid != m.to_parent
}

/// The records between the two steps of a move, with the record that was taken
/// out and the one that was put in, each between others.
pub struct MoveSteps {
    pub mid: Seq<Found>,
    pub out: (Seq<Found>, Found, Seq<Found>),
    pub new: (Seq<Found>, Found, Seq<Found>),
}

/// Whether of all directory records one was put into `dir`, between others.
pub open spec fn drec_put(
    r: Seq<Found>,
    q: Seq<Found>,
    dir: u64,
    at: (Seq<Found>, Found, Seq<Found>),
) -> bool {
    &&& picked(r, dir, J_TYPE_DIR_REC) == at.0 + at.2
    &&& picked(q, dir, J_TYPE_DIR_REC) == at.0 + seq![at.1] + at.2
    &&& forall|o: u64|
        o != dir ==> #[trigger] picked(q, o, J_TYPE_DIR_REC) == picked(r, o, J_TYPE_DIR_REC)
}

/// An entry is moved in the catalog.
pub proof fn lemma_renamed(
    v: VolumeView,
    t: Tree,
    m: Set<u64>,
    mv: Move,
    from_name: Seq<char>,
    to_name: Seq<char>,
    h: u32,
    key: Seq<u8>,
    now: i64,
) -> (r: MoveSteps)
    requires
        v.sound(t, m),
        v.hashed_key(mv.to_parent, to_name) == Ok::<(u32, Seq<u8>), Fault>((h, key)),
        can_move(recs(t), t, mv, from_name, to_name, key),
        v.renamed(mv, from_name, to_name, h, key, now) is Ok,
    ensures
        ({
            let s = v.renamed(mv, from_name, to_name, h, key, now)->Ok_0;
            let d = DrecVal { file_id: mv.oid, date_added: now, flags: drec_type(mv.inode) };
            &&& touched_ok(t, s)
            &&& entry_moved(
                recs(t),
                recs_with(t, s),
                mv.oid,
                mv.from_parent,
                from_name,
                mv.to_parent,
                to_name,
                d,
                now,
            )
            &&& forall|o: u64| #[trigger]
                inode_in(recs(t), o) is Err ==> inode_in(recs_with(t, s), o) is Err
            &&& drec_taken(recs(t), r.mid, mv.from_parent, from_name, r.out)
            &&& drec_put(r.mid, recs_with(t, s), mv.to_parent, r.new)
            &&& named_drec(r.new.1) == Some((to_name, d))
        }),
{
    let fd = mv.from_parent;
    let td = mv.to_parent;
    let oid = mv.oid;
    let leaf = v.key_leaf(key)->Ok_0;
    let d = DrecVal { file_id: oid, date_added: now, flags: drec_type(mv.inode) };
    let s1 = v.drop_drec(fd, from_name, no_source(from_name))->Ok_0;
    let s2 = v.put_drec(s1, leaf, td, to_name, h, d)->Ok_0;
    let r0 = recs(t);
    let r1 = recs_with(t, s1);
    let r2 = recs_with(t, s2);
    let (x, f, y) = lemma_drop_drec(v, t, m, fd, from_name, no_source(from_name));
    lemma_name_gone(r0, r1, fd, from_name, x, f, y);
    assert(key == drec_key(td, to_name, h));
    lemma_named_among(x, f, y, from_name);
    assert(!names_entry(r1, td, to_name)) by {
        if td == fd {
            lemma_named_among(x, f, y, to_name);
        } else {
            assert(picked(r1, td, J_TYPE_DIR_REC) == picked(r0, td, J_TYPE_DIR_REC));
        }
    }
    let (x2, y2) = lemma_put_drec(v, t, m, s1, leaf, td, to_name, h, d);
    let f2 = (drec_key(td, to_name, h), drec_bytes(d), leaf);
    law_drec_key_keeps_name(td, to_name, h);
    law_drec_roundtrip(d);
    lemma_drec_taken(r0, r1, r1, fd, from_name, (x, f, y));
    lemma_renamed_records(r0, r1, r2, oid, fd, from_name, td, to_name, d);
    assert forall|o: u64| #[trigger] extents_in(r2, o) == extents_in(r0, o) by {
        assert(picked(r2, o, J_TYPE_FILE_EXTENT) == picked(r0, o, J_TYPE_FILE_EXTENT));
    }
    assert forall|o: u64| #[trigger] inode_in(r0, o) == inode_in(r2, o) by {
        assert(picked(r2, o, J_TYPE_INODE) == picked(r0, o, J_TYPE_INODE));
    }
    if fd != td {
        lemma_moved(v, t, m, s2, oid, fd, td, now);
        let s5 = v.moved(s2, oid, fd, td, now)->Ok_0;
        let r5 = recs_with(t, s5);
        assert forall|o: u64, nm: Seq<char>| #[trigger] drec_in(r5, o, nm) == drec_in(r2, o, nm) by {
            assert(picked(r5, o, J_TYPE_DIR_REC) == picked(r2, o, J_TYPE_DIR_REC));
        }
        assert forall|o: u64| #[trigger] extents_in(r5, o) == extents_in(r0, o) by {
            assert(picked(r5, o, J_TYPE_FILE_EXTENT) == picked(r2, o, J_TYPE_FILE_EXTENT));
            assert(extents_in(r2, o) == extents_in(r0, o));
        }
        assert forall|o: u64| #[trigger] inode_in(r0, o) is Ok implies inode_in(r5, o) == Ok::<
            InodeVal,
            Fault,
        >(moved_inode(o, inode_in(r0, o)->Ok_0, oid, fd, td, now)) by {
            assert(inode_in(r2, o) == inode_in(r0, o));
        }
        assert forall|o: u64| #[trigger] inode_in(r0, o) is Err implies inode_in(r5, o) is Err by {
            assert(inode_in(r2, o) == inode_in(r0, o));
        }
        assert forall|o: u64| o != td implies #[trigger] picked(r5, o, J_TYPE_DIR_REC) == picked(
            r1,
            o,
            J_TYPE_DIR_REC,
        ) by {
            assert(picked(r2, o, J_TYPE_DIR_REC) == picked(r1, o, J_TYPE_DIR_REC));
        }
        assert(picked(r5, td, J_TYPE_DIR_REC) == picked(r2, td, J_TYPE_DIR_REC));
    }
    MoveSteps { mid: r1, out: (x, f, y), new: (x2, f2, y2) }
}

/// An object is counted in its new directory and no more in the old one.
proof fn lemma_moved(
    v: VolumeView,
    t: Tree,
    m: Set<u64>,
    s: Seq<(u64, NodeView)>,
    oid: u64,
    from_dir: u64,
    to_dir: u64,
    now: i64,
)
    requires
        v.sound(t, m),
        touched_ok(t, s),
        from_dir != to_dir,
        oid != from_dir,
        oid != to_dir,
        v.moved(s, oid, from_dir, to_dir, now) is Ok,
    ensures
        ({
            let r = recs_with(t, s);
            let q = recs_with(t, v.moved(s, oid, from_dir, to_dir, now)->Ok_0);
            &&& touched_ok(t, v.moved(s, oid, from_dir, to_dir, now)->Ok_0)
            &&& forall|o: u64| #[trigger]
                inode_in(r, o) is Ok ==> inode_in(q, o) == Ok::<InodeVal, Fault>(
                    moved_inode(o, inode_in(r, o)->Ok_0, oid, from_dir, to_dir, now),
                )
            &&& forall|o: u64| #[trigger] inode_in(r, o) is Err ==> inode_in(q, o) is Err
            &&& forall|o: u64| #[trigger]
                picked(q, o, J_TYPE_DIR_REC) == picked(r, o, J_TYPE_DIR_REC)
            &&& forall|o: u64| #[trigger]
                picked(q, o, J_TYPE_FILE_EXTENT) == picked(r, o, J_TYPE_FILE_EXTENT)
        }),
{
    let p1 = v.record_leaf(from_dir, J_TYPE_INODE)->Ok_0;
    let s1 = v.count_off(s, p1, from_dir)->Ok_0;
    let p2 = v.record_leaf(to_dir, J_TYPE_INODE)->Ok_0;
    let s2 = v.count_in(s1, p2, to_dir)->Ok_0;
    let p3 = v.record_leaf(oid, J_TYPE_INODE)->Ok_0;
    let f = |n: NodeView| reparent(n, oid, to_dir, now);
    let s3 = v.change(s2, p3, f).1;
    lemma_count_off(v, t, m, s, p1, from_dir);
    lemma_count_in(v, t, m, s1, p2, to_dir);
    lemma_reparent(v, t, m, s2, p3, oid, to_dir, now, f);
    lemma_moved_records(
        recs_with(t, s),
        recs_with(t, s1),
        recs_with(t, s2),
        recs_with(t, s3),
        oid,
        from_dir,
        to_dir,
        now,
    );
}

/// Paths that avoid the entry that was moved lead where they led.
proof fn lemma_walk_moved(
    r: Seq<Found>,
    q: Seq<Found>,
    names: Seq<Seq<char>>,
    i: int,
    start: u64,
    mv: Move,
    from_name: Seq<char>,
    to_name: Seq<char>,
    d: DrecVal,
    now: i64,
)
    requires
        entry_moved(
            r,
            q,
            mv.oid,
            mv.from_parent,
            from_name,
            mv.to_parent,
            to_name,
            d,
            now,
        ),
        drec_in(r, mv.to_parent, to_name) is Err,
        path_avoids(r, names, i, start, mv.from_parent, from_name),
    ensures
        walk_in(r, names, i, start) matches Ok((o, x)) ==> walk_in(q, names, i, start) == Ok::<
            (u64, InodeVal),
            Fault,
        >((o, moved_inode(o, x, mv.oid, mv.from_parent, mv.to_parent, now))),
        dir_walk(r, names, i, start) is Some ==> dir_walk(q, names, i, start) == dir_walk(
            r,
            names,
            i,
            start,
        ),
    decreases names.len() - i,
{
    if 0 <= i < names.len() {
        if let Ok(x) = drec_in(r, start, names[i]) {
            assert((start, names[i]) != (mv.to_parent, to_name));
            assert(drec_in(q, start, names[i]) == drec_in(r, start, names[i]));
            lemma_walk_moved(
                r,
                q,
                names,
                i + 1,
                x.file_id,
                mv,
                from_name,
                to_name,
                d,
                now,
            );
        }
    } else {
        let x = inode_in(r, start);
    }
}

/// A directory that a path leads to through directories, without passing
/// through the entry that is to be moved.
pub open spec fn apart_from(
    r: Seq<Found>,
    path: Seq<char>,
    dir: u64,
    from_dir: u64,
    from_name: Seq<char>,
) -> bool {
    let names = components(parent_path(parent_part(trimmed(path))));
    &&& dir_walk(r, names, 0, ROOT_DIR_RECORD) == Some(dir)
    &&& path_avoids(r, names, 0, ROOT_DIR_RECORD, from_dir, from_name)
}

/// Whether `w` is `v` with an object moved from one path to another: it is
/// found and listed under the new one and not under the old one, and what was
/// reached without it is reached as before. What was reached through it, if it
/// is a directory, is reached through it at its new place.
pub open spec fn shows_move(
    v: VolumeView,
    w: VolumeView,
    r: Seq<Found>,
    mv: Move,
    from: Seq<char>,
    to: Seq<char>,
    now: i64,
) -> bool {
    let from_name = base_part(trimmed(from));
    &&& w.resolve(to) == Ok::<(u64, InodeVal), Fault>(
        (
            mv.oid,
            moved_inode(mv.oid, mv.inode, mv.oid, mv.from_parent, mv.to_parent, now),
        ),
    )
    &&& w.resolve(from) == Err::<(u64, InodeVal), Fault>(Fault::NotFound(from_name))
    &&& lists(w.directory(mv.to_parent), base_part(trimmed(to)), mv.oid)
    &&& lacks(w.directory(mv.from_parent), from_name)
    &&& forall|q: Seq<char>|
        v.resolve(q) is Ok && path_avoids(
            r,
            components(q),
            0,
            ROOT_DIR_RECORD,
            mv.from_parent,
            from_name,
        ) ==> #[trigger] w.resolve(q) == Ok::<(u64, InodeVal), Fault>(
            (
                (v.resolve(q)->Ok_0).0,
                moved_inode(
                    (v.resolve(q)->Ok_0).0,
                    (v.resolve(q)->Ok_0).1,
                    mv.oid,
                    mv.from_parent,
                    mv.to_parent,
                    now,
                ),
            ),
        )
    &&& forall|o: u64| #[trigger] w.extents(o) == v.extents(o)
    &&& mode_kind(mv.inode.mode) == INODE_DIR_TYPE ==> forall|rest: Seq<char>|
        v.resolve(from + seq!['/'] + rest) is Ok && path_avoids(
            r,
            components(rest),
            0,
            mv.oid,
            mv.from_parent,
            from_name,
        ) ==> #[trigger] w.resolve(to + seq!['/'] + rest) == Ok::<(u64, InodeVal), Fault>(
            moved_along(v.resolve(from + seq!['/'] + rest)->Ok_0, mv, now),
        )
}

/// What a path led to, after a move.
pub open spec fn moved_along(x: (u64, InodeVal), mv: Move, now: i64) -> (u64, InodeVal) {
    (x.0, moved_inode(x.0, x.1, mv.oid, mv.from_parent, mv.to_parent, now))
}

/// What is reached through an entry is reached from the object that it names.
proof fn lemma_walk_from_entry(v: VolumeView, t: Tree, mv: Move, from: Seq<char>, rest: Seq<char>)
    requires
        v.has_catalog(t),
        trimmed(from).len() > 0,
        v.resolve(from) matches Ok((o, _)) && o == mv.oid,
        apart_from(recs(t), from, mv.from_parent, mv.from_parent, base_part(trimmed(from))),
        v.resolve(from + seq!['/'] + rest) is Ok,
    ensures
        walk_in(recs(t), components(rest), 0, mv.oid) == v.resolve(from + seq!['/'] + rest),
{
    let r = recs(t);
    let from_name = base_part(trimmed(from));
    let fp = components(parent_path(parent_part(trimmed(from))));
    let b = components(rest);
    law_names_of_parent_and_entry(from);
    law_slash_joins_names(from, rest);
    law_volume_shows_records(v, t, from, 0);
    law_volume_shows_records(v, t, from + seq!['/'] + rest, 0);
    lemma_walk_entry(r, fp, from_name, 0, ROOT_DIR_RECORD);
    if b.len() == 0 {
        assert(components(from) + b =~= components(from));
    } else {
        lemma_walk_under(r, fp, from_name, b, 0, ROOT_DIR_RECORD);
        lemma_dir_walk_entry(r, fp, from_name, 0, ROOT_DIR_RECORD);
        lemma_walk_through(r, fp.push(from_name), b, 0, ROOT_DIR_RECORD);
    }
}

/// What was reached through a directory is reached through it where it was
/// moved to.
proof fn lemma_moved_under(
    v: VolumeView,
    w: VolumeView,
    t: Tree,
    u: Tree,
    mv: Move,
    from: Seq<char>,
    to: Seq<char>,
    d: DrecVal,
    now: i64,
    rest: Seq<char>,
)
    requires
        v.has_catalog(t),
        w.has_catalog(u),
        trimmed(from).len() > 0,
        trimmed(to).len() > 0,
        d.file_id == mv.oid,
        drec_file_type(d.flags) == DT_DIR,
        v.resolve(from) matches Ok((o, _)) && o == mv.oid,
        drec_in(recs(t), mv.to_parent, base_part(trimmed(to))) is Err,
        apart_from(recs(t), from, mv.from_parent, mv.from_parent, base_part(trimmed(from))),
        apart_from(recs(t), to, mv.to_parent, mv.from_parent, base_part(trimmed(from))),
        entry_moved(
            recs(t),
            recs(u),
            mv.oid,
            mv.from_parent,
            base_part(trimmed(from)),
            mv.to_parent,
            base_part(trimmed(to)),
            d,
            now,
        ),
        v.resolve(from + seq!['/'] + rest) is Ok,
        path_avoids(
            recs(t),
            components(rest),
            0,
            mv.oid,
            mv.from_parent,
            base_part(trimmed(from)),
        ),
    ensures
        w.resolve(to + seq!['/'] + rest) == Ok::<(u64, InodeVal), Fault>(
            moved_along(v.resolve(from + seq!['/'] + rest)->Ok_0, mv, now),
        ),
{
    let r = recs(t);
    let q = recs(u);
    let from_name = base_part(trimmed(from));
    let to_name = base_part(trimmed(to));
    let tp = components(parent_path(parent_part(trimmed(to))));
    let b = components(rest);
    law_names_of_parent_and_entry(to);
    law_slash_joins_names(to, rest);
    law_volume_shows_records(w, u, to + seq!['/'] + rest, 0);
    lemma_walk_from_entry(v, t, mv, from, rest);
    lemma_walk_moved(r, q, b, 0, mv.oid, mv, from_name, to_name, d, now);
    lemma_walk_moved(r, q, tp, 0, ROOT_DIR_RECORD, mv, from_name, to_name, d, now);
    lemma_dir_walk_entry(q, tp, to_name, 0, ROOT_DIR_RECORD);
    lemma_walk_through(q, tp.push(to_name), b, 0, ROOT_DIR_RECORD);
}

/// What entries that moved mean for paths.
proof fn lemma_shows_move(
    v: VolumeView,
    w: VolumeView,
    t: Tree,
    u: Tree,
    mv: Move,
    from: Seq<char>,
    to: Seq<char>,
    d: DrecVal,
    now: i64,
)
    requires
        v.has_catalog(t),
        w.has_catalog(u),
        trimmed(from).len() > 0,
        trimmed(to).len() > 0,
        d.file_id == mv.oid,
        d.flags == drec_type(mv.inode),
        v.resolve(from) matches Ok((o, _)) && o == mv.oid,
        inode_in(recs(t), mv.oid) == Ok::<InodeVal, Fault>(mv.inode),
        drec_in(recs(t), mv.to_parent, base_part(trimmed(to))) is Err,
        apart_from(recs(t), from, mv.from_parent, mv.from_parent, base_part(trimmed(from))),
        apart_from(recs(t), to, mv.to_parent, mv.from_parent, base_part(trimmed(from))),
        entry_moved(
            recs(t),
            recs(u),
            mv.oid,
            mv.from_parent,
            base_part(trimmed(from)),
            mv.to_parent,
            base_part(trimmed(to)),
            d,
            now,
        ),
    ensures
        shows_move(v, w, recs(t), mv, from, to, now),
{
    let r = recs(t);
    let q = recs(u);
    let from_name = base_part(trimmed(from));
    let to_name = base_part(trimmed(to));
    let fp = components(parent_path(parent_part(trimmed(from))));
    let tp = components(parent_path(parent_part(trimmed(to))));
    law_names_of_parent_and_entry(from);
    law_names_of_parent_and_entry(to);
    lemma_walk_moved(r, q, fp, 0, ROOT_DIR_RECORD, mv, from_name, to_name, d, now);
    lemma_walk_moved(r, q, tp, 0, ROOT_DIR_RECORD, mv, from_name, to_name, d, now);
    lemma_walk_entry(q, fp, from_name, 0, ROOT_DIR_RECORD);
    lemma_walk_entry(q, tp, to_name, 0, ROOT_DIR_RECORD);
    law_volume_shows_records(w, u, from, 0);
    law_volume_shows_records(w, u, to, 0);
    law_listing_agrees_with_lookup(w, u, mv.from_parent, from_name);
    law_listing_agrees_with_lookup(w, u, mv.to_parent, to_name);
    assert(inode_in(r, mv.oid) is Ok);
    assert forall|p: Seq<char>|
        v.resolve(p) is Ok && path_avoids(
            r,
            components(p),
            0,
            ROOT_DIR_RECORD,
            mv.from_parent,
            from_name,
        ) implies #[trigger] w.resolve(p) == Ok::<(u64, InodeVal), Fault>(
        (
            (v.resolve(p)->Ok_0).0,
            moved_inode(
                (v.resolve(p)->Ok_0).0,
                (v.resolve(p)->Ok_0).1,
                mv.oid,
                mv.from_parent,
                mv.to_parent,
                now,
            ),
        ),
    ) by {
        law_volume_shows_records(v, t, p, 0);
        law_volume_shows_records(w, u, p, 0);
        lemma_walk_moved(
            r,
            q,
            components(p),
            0,
            ROOT_DIR_RECORD,
            mv,
            from_name,
            to_name,
            d,
            now,
        );
    }
    assert forall|o: u64| #[trigger] w.extents(o) == v.extents(o) by {
        law_volume_shows_records(v, t, from, o);
        law_volume_shows_records(w, u, from, o);
        assert(extents_in(q, o) == extents_in(r, o));
    }
    if mode_kind(mv.inode.mode) == INODE_DIR_TYPE {
        assert(DT_DIR & 0xF == DT_DIR) by (bit_vector);
        assert forall|rest: Seq<char>|
            v.resolve(from + seq!['/'] + rest) is Ok && path_avoids(
                r,
                components(rest),
                0,
                mv.oid,
                mv.from_parent,
                from_name,
            ) implies #[trigger] w.resolve(to + seq!['/'] + rest) == Ok::<(u64, InodeVal), Fault>(
            moved_along(v.resolve(from + seq!['/'] + rest)->Ok_0, mv, now),
        ) by {
            lemma_moved_under(v, w, t, u, mv, from, to, d, now, rest);
        }
    }
}

/// A rename that was looked up is carried out. Gives the catalog afterwards.
proof fn lemma_finish_move(
    v: VolumeView,
    t: Tree,
    m: Set<u64>,
    mv: Move,
    from: Seq<char>,
    to: Seq<char>,
    h: u32,
    key: Seq<u8>,
    now: i64,
) -> (u: Tree)
    requires
        v.sound(t, m),
        trimmed(from).len() > 0,
        trimmed(to).len() > 0,
        v.hashed_key(mv.to_parent, base_part(trimmed(to))) == Ok::<(u32, Seq<u8>), Fault>(
            (h, key),
        ),
        can_move(recs(t), t, mv, base_part(trimmed(from)), base_part(trimmed(to)), key),
        inode_in(recs(t), mv.oid) == Ok::<InodeVal, Fault>(mv.inode),
        v.resolve(from) matches Ok((o, _)) && o == mv.oid,
        apart_from(recs(t), from, mv.from_parent, mv.from_parent, base_part(trimmed(from))),
        apart_from(recs(t), to, mv.to_parent, mv.from_parent, base_part(trimmed(from))),
        v.finish_move(mv, base_part(trimmed(from)), base_part(trimmed(to)), h, key, now).0 is Ok,
    ensures
        ({
            let w = v.finish_move(
                mv,
                base_part(trimmed(from)),
                base_part(trimmed(to)),
                h,
                key,
                now,
            ).1;
            &&& w.sound(u, m)
            &&& shows_move(v, w, recs(t), mv, from, to, now)
            &&& files_kept(v, w, t, m)
            &&& follows(v, t, w, u, m)
        }),
{
    let from_name = base_part(trimmed(from));
    let to_name = base_part(trimmed(to));
    let w = v.finish_move(mv, from_name, to_name, h, key, now).1;
    lemma_renamed(v, t, m, mv, from_name, to_name, h, key, now);
    let s = v.renamed(mv, from_name, to_name, h, key, now)->Ok_0;
    let d = DrecVal { file_id: mv.oid, date_added: now, flags: drec_type(mv.inode) };
    lemma_commit(v, t, m, s);
    lemma_commit_follows(v, t, m, s);
    let u = tree_after(t, s, v.nx);
    lemma_no_name(picked(recs(t), mv.to_parent, J_TYPE_DIR_REC), to_name, 0);
    lemma_shows_move(v, w, t, u, mv, from, to, d, now);
    assert forall|spans: Seq<(u64, u64, u64)>, limit: int|
        spans_clear(t, m, v.nx, v.block_size, spans) implies #[trigger] fork_prefix(
        w.disk,
        spans,
        0,
        limit,
    ) == fork_prefix(v.disk, spans, 0, limit) by {
        lemma_commit_file(v, t, m, s, spans, limit);
    }
    u
}

/// What a rename asks of the volume: both directories are reached through
/// directories and not through the entry itself, and the new entry can be put
/// in.
pub open spec fn can_rename(v: VolumeView, t: Tree, mv: Move, from: Seq<char>, to: Seq<char>) -> bool {
    let from_name = base_part(trimmed(from));
    let to_name = base_part(trimmed(to));
    &&& apart_from(recs(t), from, mv.from_parent, mv.from_parent, from_name)
    &&& apart_from(recs(t), to, mv.to_parent, mv.from_parent, from_name)
    &&& (v.hashed_key(mv.to_parent, to_name) matches Ok((_, key)) ==> can_move(
        recs(t),
        t,
        mv,
        from_name,
        to_name,
        key,
    ))
}

/// An object that was renamed is found under the new path with what it was,
/// and no more under the old one; so is what is in it, if it is a directory.
/// What was reached without it is reached as before, and files have their
/// extents and their bytes. Gives the catalog afterwards.
pub proof fn law_rename_is_shown(
    v: VolumeView,
    t: Tree,
    m: Set<u64>,
    from: Seq<char>,
    to: Seq<char>,
    replace: bool,
    now: i64,
) -> (u: Tree)
    requires
        v.sound(t, m),
        v.rename(from, to, replace, now).0 is Ok,
        trimmed(from) != trimmed(to),
        v.plan_move(from, to) matches Ok(mv) && mv.existing is None && can_rename(
            v,
            t,
            mv,
            from,
            to,
        ),
    ensures
        ({
            let w = v.rename(from, to, replace, now).1;
            let mv = v.plan_move(from, to)->Ok_0;
            &&& w.sound(u, m)
            &&& shows_move(v, w, recs(t), mv, from, to, now)
            &&& files_kept(v, w, t, m)
            &&& follows(v, t, w, u, m)
        }),
{
    let mv = v.plan_move(from, to)->Ok_0;
    let (h, key) = v.hashed_key(mv.to_parent, base_part(trimmed(to)))->Ok_0;
    lemma_resolve_inode(v, t, from);
    lemma_finish_move(v, t, m, mv, from, to, h, key, now)
}

/// What a rename that replaces a file asks of the volume.
pub open spec fn can_replace(
    v: VolumeView,
    t: Tree,
    mv: Move,
    from: Seq<char>,
    to: Seq<char>,
) -> bool {
    let r = recs(t);
    let from_name = base_part(trimmed(from));
    let to_name = base_part(trimmed(to));
    &&& mv.existing matches Some((there, inode))
    &&& there != mv.oid
    &&& there != mv.from_parent
    &&& inode.parent_id == mv.to_parent
    &&& can_remove(t, to, mv.to_parent)
    &&& apart_from(r, from, mv.from_parent, mv.from_parent, from_name)
    &&& apart_from(r, to, mv.to_parent, mv.from_parent, from_name)
    &&& names_once(picked(r, mv.from_parent, J_TYPE_DIR_REC), from_name)
    &&& mv.to_parent < KIND_UNIT
    &&& forall|i: int| 0 <= i < to_name.len() ==> (#[trigger] to_name[i]) != '\0'
    &&& (v.hashed_key(mv.to_parent, to_name) matches Ok((_, key)) ==> reaches(t, key))
    &&& mv.oid != mv.from_parent
    &&& mv.oid != mv.to_parent
}

/// When the file in the way of a rename is gone, the object can be moved.
/// Gives the catalog without that file.
#[verifier::rlimit(40)]
pub proof fn lemma_way_is_clear(
    v: VolumeView,
    t: Tree,
    m: Set<u64>,
    mv: Move,
    from: Seq<char>,
    to: Seq<char>,
    h: u32,
    key: Seq<u8>,
) -> (u: Tree)
    requires
        v.sound(t, m),
        v.plan_move(from, to) == Ok::<Move, Fault>(mv),
        can_replace(v, t, mv, from, to),
        trimmed(to).len() > 0,
        v.unlink(to).0 is Ok,
        v.hashed_key(mv.to_parent, base_part(trimmed(to))) == Ok::<(u32, Seq<u8>), Fault>(
            (h, key),
        ),
    ensures
        ({
            let v1 = v.unlink(to).1;
            let from_name = base_part(trimmed(from));
            let to_name = base_part(trimmed(to));
            &&& v1.sound(u, m)
            &&& v1.hashed_key(mv.to_parent, to_name) == v.hashed_key(mv.to_parent, to_name)
            &&& can_move(recs(u), u, mv, from_name, to_name, key)
            &&& apart_from(recs(u), from, mv.from_parent, mv.from_parent, from_name)
            &&& inode_in(recs(u), mv.oid) is Ok
            &&& inode_in(recs(u), mv.to_parent) is Ok
            &&& v1.resolve(from) is Ok
        }),
{
    let (there, old) = mv.existing->0;
    let from_name = base_part(trimmed(from));
    let to_name = base_part(trimmed(to));
    let v1 = v.unlink(to).1;
    let td = mv.to_parent;
    assert(v.resolve(to) == Ok::<(u64, InodeVal), Fault>((there, old)));
    lemma_resolve_inode(v, t, from);
    let sid = old.private_id;
    lemma_unlinked(v, t, m, there, sid, td, to_name);
    let s = v.unlinked(there, sid, td, to_name)->Ok_0;
    lemma_commit(v, t, m, s);
    let f = settled(s, next_commit_xid(v.nx) as u64);
    let u1 = tree_after(t, s, v.nx);
    assert(v1 == v.commit(s).1);
    lemma_entry_gone(v, v1, t, u1, to, there, td);
    lemma_reaches_kept(t, f, key);
    lemma_still_apart(v, t, u1, mv, there, from, to);
    assert(v1.hashed_key(td, to_name) == v.hashed_key(td, to_name));
    assert(inode_in(recs(u1), mv.oid) == inode_in(recs(t), mv.oid));
    assert(names_once(picked(recs(u1), mv.from_parent, J_TYPE_DIR_REC), from_name));
    assert(v1.resolve(from) matches Ok((o, _)) && o == mv.oid);
    u1
}

/// An object that was renamed onto a file takes its place: it is found under
/// the new path with what it was, and no more under the old one, and so is what
/// is in it, if it is a directory. The file that was there has no extents any
/// more. Other files have their extents and their bytes. Gives the catalog
/// afterwards.
#[verifier::rlimit(40)]
pub proof fn law_rename_replaces(
    v: VolumeView,
    t: Tree,
    m: Set<u64>,
    from: Seq<char>,
    to: Seq<char>,
    now: i64,
) -> (u: Tree)
    requires
        v.sound(t, m),
        v.rename(from, to, true, now).0 is Ok,
        trimmed(from) != trimmed(to),
        v.plan_move(from, to) matches Ok(mv) && can_replace(v, t, mv, from, to),
    ensures
        ({
            let w = v.rename(from, to, true, now).1;
            let mv = v.plan_move(from, to)->Ok_0;
            let there = (mv.existing->0).0;
            let sid = (mv.existing->0).1.private_id;
            let from_name = base_part(trimmed(from));
            &&& w.sound(u, m)
            &&& w.resolve(to) == Ok::<(u64, InodeVal), Fault>(
                (
                    mv.oid,
                    moved_inode(mv.oid, mv.inode, mv.oid, mv.from_parent, mv.to_parent, now),
                ),
            )
            &&& w.resolve(from) == Err::<(u64, InodeVal), Fault>(Fault::NotFound(from_name))
            &&& lists(w.directory(mv.to_parent), base_part(trimmed(to)), mv.oid)
            &&& lacks(w.directory(mv.from_parent), from_name)
            &&& forall|q: Seq<char>|
                v.resolve(q) is Ok && (v.resolve(q)->Ok_0).0 != there && path_avoids(
                    recs(t),
                    components(q),
                    0,
                    ROOT_DIR_RECORD,
                    mv.from_parent,
                    from_name,
                ) ==> (#[trigger] w.resolve(q) matches Ok((o, _)) && o
                    == (v.resolve(q)->Ok_0).0)
            &&& mode_kind(mv.inode.mode) == INODE_DIR_TYPE ==> forall|rest: Seq<char>|
                v.resolve(from + seq!['/'] + rest) is Ok && (v.resolve(
                    from + seq!['/'] + rest,
                )->Ok_0).0 != there && path_avoids(
                    recs(t),
                    components(rest),
                    0,
                    mv.oid,
                    mv.from_parent,
                    from_name,
                ) ==> (#[trigger] w.resolve(to + seq!['/'] + rest) matches Ok((o, _)) && o == (
                v.resolve(from + seq!['/'] + rest)->Ok_0).0)
            &&& w.extents(sid) == Ok::<Seq<FileExtentVal>, Fault>(seq![])
            &&& forall|o: u64| o != sid ==> #[trigger] w.extents(o) == v.extents(o)
            &&& files_kept(v, w, t, m)
            &&& exists|c: Tree| #[trigger]
                follows(v, t, v.unlink(to).1, c, m) && v.unlink(to).1.sound(c, m) && follows(
                    v.unlink(to).1,
                    c,
                    w,
                    u,
                    m,
                )
        }),
{
    let mv = v.plan_move(from, to)->Ok_0;
    let (there, old) = mv.existing->0;
    let from_name = base_part(trimmed(from));
    let to_name = base_part(trimmed(to));
    let (h, key) = v.hashed_key(mv.to_parent, to_name)->Ok_0;
    let w = v.rename(from, to, true, now).1;
    let v1 = v.unlink(to).1;
    let td = mv.to_parent;
    assert(v.resolve(to) == Ok::<(u64, InodeVal), Fault>((there, old)));
    lemma_resolve_inode(v, t, from);
    let sid = old.private_id;
    lemma_unlinked(v, t, m, there, sid, td, to_name);
    let s = v.unlinked(there, sid, td, to_name)->Ok_0;
    lemma_commit(v, t, m, s);
    lemma_commit_follows(v, t, m, s);
    let f = settled(s, next_commit_xid(v.nx) as u64);
    let u1 = tree_after(t, s, v.nx);
    assert(v1 == v.commit(s).1);
    lemma_entry_gone(v, v1, t, u1, to, there, td);
    law_volume_shows_records(v1, u1, to, sid);
    lemma_reaches_kept(t, f, key);
    lemma_still_apart(v, t, u1, mv, there, from, to);
    assert(v1.hashed_key(td, to_name) == v.hashed_key(td, to_name));
    assert(inode_in(recs(u1), mv.oid) == inode_in(recs(t), mv.oid));
    assert(names_once(picked(recs(u1), mv.from_parent, J_TYPE_DIR_REC), from_name));
    assert(v1.resolve(from) matches Ok((o, _)) && o == mv.oid);
    let u = lemma_finish_move(v1, u1, m, mv, from, to, h, key, now);
    assert(w == v1.finish_move(mv, from_name, to_name, h, key, now).1);
    assert forall|q: Seq<char>|
        v.resolve(q) is Ok && (v.resolve(q)->Ok_0).0 != there && path_avoids(
            recs(t),
            components(q),
            0,
            ROOT_DIR_RECORD,
            mv.from_parent,
            from_name,
        ) implies (#[trigger] w.resolve(q) matches Ok((o, _)) && o == (v.resolve(q)->Ok_0).0) by {
        lemma_still_avoids(
            v,
            t,
            u1,
            mv,
            there,
            to,
            ROOT_DIR_RECORD,
            components(q),
            from_name,
        );
        law_volume_shows_records(v, t, q, 0);
        assert(v1.resolve(q) is Ok);
    }
    if mode_kind(mv.inode.mode) == INODE_DIR_TYPE {
        assert forall|rest: Seq<char>|
            v.resolve(from + seq!['/'] + rest) is Ok && (v.resolve(
                from + seq!['/'] + rest,
            )->Ok_0).0 != there && path_avoids(
                recs(t),
                components(rest),
                0,
                mv.oid,
                mv.from_parent,
                from_name,
            ) implies (#[trigger] w.resolve(to + seq!['/'] + rest) matches Ok((o, _)) && o == (
        v.resolve(from + seq!['/'] + rest)->Ok_0).0) by {
            lemma_walk_from_entry(v, t, mv, from, rest);
            lemma_still_avoids(
                v,
                t,
                u1,
                mv,
                there,
                to,
                mv.oid,
                components(rest),
                from_name,
            );
            assert(v1.resolve(from + seq!['/'] + rest) is Ok);
        }
    }
    assert forall|o: u64| o != sid implies #[trigger] w.extents(o) == v.extents(o) by {
        law_volume_shows_records(v, t, to, o);
        law_volume_shows_records(v1, u1, to, o);
        assert(extents_in(recs(u1), o) == extents_in(recs(t), o));
        assert(w.extents(o) == v1.extents(o));
    }
    assert(w.extents(sid) == v1.extents(sid));
    assert forall|spans: Seq<(u64, u64, u64)>, limit: int|
        spans_clear(t, m, v.nx, v.block_size, spans) implies #[trigger] fork_prefix(
        w.disk,
        spans,
        0,
        limit,
    ) == fork_prefix(v.disk, spans, 0, limit) by {
        lemma_commit_file(v, t, m, s, spans, limit);
        assert forall|q: u64| #[trigger] in_ring(v1.nx, q) == in_ring(v.nx, q) by {}
        lemma_clear_kept(t, f, m, v.nx, v1.nx, v.block_size, spans);
        assert(fork_prefix(w.disk, spans, 0, limit) == fork_prefix(v1.disk, spans, 0, limit));
    }
    u
}

/// Paths that avoid the entry that is to be moved avoid it when the file in
/// the way is gone.
proof fn lemma_still_avoids(
    v: VolumeView,
    t: Tree,
    u1: Tree,
    mv: Move,
    there: u64,
    to: Seq<char>,
    start: u64,
    names: Seq<Seq<char>>,
    from_name: Seq<char>,
)
    requires
        v.has_catalog(t),
        trimmed(to).len() > 0,
        can_remove(t, to, mv.to_parent),
        v.resolve(to) matches Ok((o, _)) && o == there,
        entry_removed(recs(t), recs(u1), there, mv.to_parent, base_part(trimmed(to))),
        path_avoids(recs(t), names, 0, start, mv.from_parent, from_name),
    ensures
        (walk_in(recs(t), names, 0, start) matches Ok((o, _)) && o != there)
            ==> path_avoids(
            recs(u1),
            names,
            0,
            start,
            mv.from_parent,
            from_name,
        ),
        dir_walk(recs(t), names, 0, start) matches Some(p) ==> (p != there ==> dir_walk(
            recs(u1),
            names,
            0,
            start,
        ) == Some(p) && path_avoids(
            recs(u1),
            names,
            0,
            start,
            mv.from_parent,
            from_name,
        )),
{
    let r = recs(t);
    let q = recs(u1);
    let td = mv.to_parent;
    let to_name = base_part(trimmed(to));
    let tp = components(parent_path(parent_part(trimmed(to))));
    law_names_of_parent_and_entry(to);
    lemma_walk_entry(r, tp, to_name, 0, ROOT_DIR_RECORD);
    law_volume_shows_records(v, t, to, 0);
    let g = |o: u64, x: InodeVal|
        if o == td {
            uncounted(x)
        } else {
            x
        };
    assert forall|o: u64| #[trigger]
        inode_in(r, o) is Ok && o != there implies inode_in(q, o) == Ok::<InodeVal, Fault>(
        g(o, inode_in(r, o)->Ok_0),
    ) by {
        if o != td {
            assert(inode_in(q, o) == inode_in(r, o));
        }
    }
    lemma_walk_without(
        r,
        q,
        names,
        0,
        start,
        td,
        to_name,
        there,
        g,
        mv.from_parent,
        from_name,
    );
}

/// Both directories of a rename are reached as before when the file in the way
/// is gone.
proof fn lemma_still_apart(
    v: VolumeView,
    t: Tree,
    u1: Tree,
    mv: Move,
    there: u64,
    from: Seq<char>,
    to: Seq<char>,
)
    requires
        v.has_catalog(t),
        trimmed(to).len() > 0,
        can_remove(t, to, mv.to_parent),
        v.resolve(to) matches Ok((o, _)) && o == there,
        entry_removed(recs(t), recs(u1), there, mv.to_parent, base_part(trimmed(to))),
        there != mv.from_parent,
        apart_from(recs(t), from, mv.from_parent, mv.from_parent, base_part(trimmed(from))),
        apart_from(recs(t), to, mv.to_parent, mv.from_parent, base_part(trimmed(from))),
    ensures
        apart_from(recs(u1), from, mv.from_parent, mv.from_parent, base_part(trimmed(from))),
        apart_from(recs(u1), to, mv.to_parent, mv.from_parent, base_part(trimmed(from))),
{
    let from_name = base_part(trimmed(from));
    let fp = components(parent_path(parent_part(trimmed(from))));
    let tp = components(parent_path(parent_part(trimmed(to))));
    lemma_still_avoids(v, t, u1, mv, there, to, ROOT_DIR_RECORD, fp, from_name);
    lemma_still_avoids(v, t, u1, mv, there, to, ROOT_DIR_RECORD, tp, from_name);
}

} // verus!
