//! What holds of a new entry, whatever the clock said when it was made.

use crate::apfs::catalog::records::{
    INODE_DIR_TYPE, INODE_FILE_TYPE, INODE_KIND_MASK, ROOT_DIR_RECORD,
};
use crate::apfs::error::Fault;
use crate::apfs::path::{base_part, parent_part, parent_path, trimmed};
use crate::apfs::text::msg_str;
use crate::apfs::types::{DirEntryView, EntryKind, FileStat, WalkEntryView};
use crate::apfs::volume::create::law_created_gets_next_id;
use crate::apfs::volume::law_create::{
    can_create, law_create_is_shown, law_created_path_is_taken,
};
use crate::apfs::volume::law_success::{law_create_succeeds, room_to_create};
use crate::apfs::volume::law_walk::{law_created_entry_is_walked, new_entry, unnamed};
use crate::apfs::volume::leaves::comes_of;
use crate::apfs::volume::listing::walked;
use crate::apfs::volume::state::VolumeView;
use crate::apfs::volume::tree::{recs, Tree};
use crate::apfs::volume::walks::{all_grown_by, dirs_of, gained, is_directory, shown};
use vstd::prelude::*;

verus! {

/// Whether a walk shows the directory `dir` at one place, which is `at`. The
/// root is at no place that a walk shows.
pub open spec fn one_place(all: Seq<WalkEntryView>, dir: u64, at: Seq<char>) -> bool {
    &&& forall|y: WalkEntryView| #[trigger]
        all.contains(y) && is_directory(y, dir) ==> dir != ROOT_DIR_RECORD && y.path == at
    &&& if dir == ROOT_DIR_RECORD {
        at == Seq::<char>::empty()
    } else {
        exists|y: WalkEntryView| #[trigger] all.contains(y) && is_directory(y, dir)
    }
}

/// Whether a walk has gained one entry and is else as before.
pub open spec fn gained_one(
    was: Seq<WalkEntryView>,
    now: Seq<WalkEntryView>,
    e: WalkEntryView,
) -> bool {
    forall|x: WalkEntryView| #[trigger] now.contains(x) == (was.contains(x) || x == e)
}

/// A walk that shows the directory of a new entry once gains that entry.
proof fn lemma_gained_one(
    v: VolumeView,
    w: VolumeView,
    dir: u64,
    e: DirEntryView,
    at: Seq<char>,
)
    requires
        v.walk() is Ok,
        w.walk() is Ok,
        all_grown_by(dirs_of(w), v.walk()->Ok_0, w.walk()->Ok_0, dir, e),
        forall|at: Seq<char>, x: WalkEntryView| #[trigger]
            shown(dirs_of(w), e, at, x) == (x == walked(at, e)),
        one_place(v.walk()->Ok_0, dir, at),
    ensures
        gained_one(v.walk()->Ok_0, w.walk()->Ok_0, walked(at, e)),
{
    reveal(all_grown_by);
    let was = v.walk()->Ok_0;
    let now = w.walk()->Ok_0;
    let dirs = dirs_of(w);
    assert forall|x: WalkEntryView| #[trigger] now.contains(x) == (was.contains(x) || x == walked(
        at,
        e,
    )) by {
        if dir != ROOT_DIR_RECORD {
            let y = choose|y: WalkEntryView| #[trigger] was.contains(y) && is_directory(y, dir);
            assert(was.contains(y) && is_directory(y, dir));
            assert(shown(dirs, e, y.path, x) == (x == walked(at, e)));
        } else {
            assert(shown(dirs, e, seq![], x) == (x == walked(at, e)));
        }
        assert(gained(dirs, was, dir, e, x) ==> x == walked(at, e));
    }
}

/// What is said of a new entry.
pub open spec fn stat_made(s: FileStat, oid: u64, is_dir: bool) -> bool {
    &&& s.oid == oid
    &&& s.kind == if is_dir {
        EntryKind::Directory
    } else {
        EntryKind::File
    }
    &&& s.size == 0
    &&& s.nlink == if is_dir {
        0u32
    } else {
        1
    }
}

/// Whether `r` and `w` come of making a new entry at some time, where there is
/// room for it: under a directory that has no such name, with an id that no
/// directory record has.
pub open spec fn makes(
    v: VolumeView,
    t: Tree,
    path: Seq<char>,
    who: Seq<char>,
    is_dir: bool,
    r: Result<u64, Fault>,
    w: VolumeView,
) -> bool {
    &&& trimmed(path).len() > 0
    &&& v.parent_of(path) is Ok
    &&& can_create(v, t, path)
    &&& room_to_create(v, t, path)
    &&& unnamed(recs(t), v.next_obj_id)
    &&& exists|now: i64|
        comes_of(v.nx, r, w, #[trigger] v.create(path, who, is_dir, now), true)
}

/// The time at which an entry was made.
proof fn lemma_made_at(
    v: VolumeView,
    t: Tree,
    m: Set<u64>,
    path: Seq<char>,
    who: Seq<char>,
    is_dir: bool,
    r: Result<u64, Fault>,
    w: VolumeView,
) -> (now: i64)
    requires
        v.sound(t, m),
        makes(v, t, path, who, is_dir, r, w),
    ensures
        (r, w) == v.create(path, who, is_dir, now),
        r == Ok::<u64, Fault>(v.next_obj_id),
{
    let now = choose|now: i64|
        comes_of(v.nx, r, w, #[trigger] v.create(path, who, is_dir, now), true);
    law_create_succeeds(v, t, m, path, who, is_dir, now);
    now
}

/// A new entry is made where there is room for it: the call gives the next
/// object id, whatever the time was. The entry is found under its path, a file
/// is empty, and the directory counts one entry more.
pub proof fn law_entry_is_made(
    v: VolumeView,
    t: Tree,
    m: Set<u64>,
    path: Seq<char>,
    who: Seq<char>,
    is_dir: bool,
    r: Result<u64, Fault>,
    w: VolumeView,
)
    requires
        v.sound(t, m),
        makes(v, t, path, who, is_dir, r, w),
    ensures
        r == Ok::<u64, Fault>(v.next_obj_id),
        w.next_obj_id == v.next_obj_id + 1,
        w.stat(path) matches Ok(s) && stat_made(s, v.next_obj_id, is_dir),
        v.extents(v.next_obj_id) is Ok ==> w.contents(path) == Ok::<Seq<u8>, Fault>(seq![]),
        ({
            let parent = parent_path(parent_part(trimmed(path)));
            &&& v.stat(parent) matches Ok(a)
            &&& w.stat(parent) matches Ok(b)
            &&& b.oid == a.oid
            &&& 0 <= (v.resolve(parent)->Ok_0).1.nchildren_or_nlink < i32::MAX ==> b.nlink
                == a.nlink + 1
        }),
{
    let now = lemma_made_at(v, t, m, path, who, is_dir, r, w);
    let u = law_create_is_shown(v, t, m, path, who, is_dir, now);
    let parent = parent_path(parent_part(trimmed(path)));
    assert((INODE_DIR_TYPE | 0o755) & INODE_KIND_MASK == INODE_DIR_TYPE) by (bit_vector);
    assert((INODE_FILE_TYPE | 0o644) & INODE_KIND_MASK == INODE_FILE_TYPE) by (bit_vector);
    assert(v.resolve(parent) is Ok);
    assert(w.resolve(parent) is Ok);
}

/// A walk that shows the directory of a new entry once gains the entry and
/// nothing else, whatever the time was. A new file does not stop it; a new
/// directory may be one too deep. Gives the entry.
pub proof fn law_made_entry_is_walked(
    v: VolumeView,
    t: Tree,
    m: Set<u64>,
    path: Seq<char>,
    who: Seq<char>,
    is_dir: bool,
    r: Result<u64, Fault>,
    w: VolumeView,
    at: Seq<char>,
) -> (e: DirEntryView)
    requires
        v.sound(t, m),
        makes(v, t, path, who, is_dir, r, w),
        v.walk() is Ok,
        is_dir ==> w.walk() is Ok,
        one_place(v.walk()->Ok_0, v.parent_of(path)->Ok_0, at),
    ensures
        w.walk() is Ok,
        gained_one(v.walk()->Ok_0, w.walk()->Ok_0, walked(at, e)),
        e.name == base_part(trimmed(path)),
        e.oid == v.next_obj_id,
        e.kind == if is_dir {
            EntryKind::Directory
        } else {
            EntryKind::File
        },
        e.size == 0,
{
    let now = lemma_made_at(v, t, m, path, who, is_dir, r, w);
    law_created_entry_is_walked(v, t, m, path, who, is_dir, now);
    let e = new_entry(v, path, is_dir, now);
    lemma_gained_one(v, w, v.parent_of(path)->Ok_0, e, at);
    assert(4u16 & 0x000F == 4) by (bit_vector);
    assert(8u16 & 0x000F == 8) by (bit_vector);
    e
}

/// Where an entry was made the path is refused from then on, with nothing
/// changed, and other new entries get other ids, whatever the times are.
pub proof fn law_made_path_is_taken(
    v: VolumeView,
    t: Tree,
    m: Set<u64>,
    path: Seq<char>,
    who: Seq<char>,
    is_dir: bool,
    r: Result<u64, Fault>,
    w: VolumeView,
    other: Seq<char>,
    again: (Seq<char>, bool),
)
    requires
        v.sound(t, m),
        makes(v, t, path, who, is_dir, r, w),
    ensures
        forall|later: i64| #[trigger]
            w.create(path, again.0, again.1, later) == (
                Err::<u64, Fault>(
                    Fault::Internal(
                        msg_str(msg_str(again.0, ": '"@, path), "' already exists"@, ""@),
                    ),
                ),
                w,
            ),
        forall|later: i64|
            (#[trigger] w.create(other, again.0, again.1, later)).0 matches Ok(oid) ==> oid
                != v.next_obj_id,
{
    let now = lemma_made_at(v, t, m, path, who, is_dir, r, w);
    let u = law_create_is_shown(v, t, m, path, who, is_dir, now);
    assert forall|later: i64|
        (#[trigger] w.create(other, again.0, again.1, later)).0 matches Ok(oid) ==> oid
            != v.next_obj_id by {
        law_created_gets_next_id(w, other, again.0, again.1, later);
    }
    assert forall|later: i64| #[trigger]
        w.create(path, again.0, again.1, later) == (
            Err::<u64, Fault>(
                Fault::Internal(msg_str(msg_str(again.0, ": '"@, path), "' already exists"@, ""@)),
            ),
            w,
        ) by {
        law_created_path_is_taken(
            v,
            t,
            m,
            path,
            who,
            is_dir,
            now,
            (again.0, again.1, later),
        );
    }
}

} // verus!
