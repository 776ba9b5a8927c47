//! What a volume shows after it was changed through a driver, and what the
//! driver tells of the change.

use crate::apfs::bytes::splice;
use crate::apfs::catalog::records::{
    inode_size, mode_kind, InodeVal, INODE_DIR_TYPE, INODE_FILE_TYPE, J_TYPE_XATTR,
};
use crate::apfs::error::Fault;
use crate::apfs::extents::{law_streaming_gives_the_front, spans_of};
use crate::apfs::layouts::law_mode_tells_kind;
use crate::apfs::path::{base_part, trimmed};
use crate::apfs::types::FileStat;
use crate::apfs::volume::create::new_inode;
use crate::apfs::volume::data::{law_overwrite_is_read_back, sound_file};
use crate::apfs::volume::law_append::{
    can_grow, law_append_is_read_back, law_grow_adds_zeros, up_to,
};
use crate::apfs::volume::law_create::{can_create, law_create_is_shown};
use crate::apfs::volume::law_remove::{law_remove_directory_is_shown, law_unlink_is_shown};
use crate::apfs::volume::law_rename::{
    can_rename, can_replace, law_rename_is_shown, law_rename_replaces,
};
use crate::apfs::volume::law_replace::{can_give_way, law_replacing_rename_succeeds};
use crate::apfs::volume::law_success::{
    counts_entry, law_create_succeeds, law_remove_directory_succeeds, law_rename_succeeds,
    law_unlink_succeeds, room_to_create, room_to_rename,
};
use crate::apfs::volume::law_told::law_new_objects;
use crate::apfs::volume::laws::law_set_size_is_shown;
use crate::apfs::volume::read::stat_and_map;
use crate::apfs::volume::state::VolumeView;
use crate::apfs::volume::success::can_commit;
use crate::apfs::volume::tree::Tree;
use crate::driver::cache::{
    law_noted_is_recalled, law_other_paths_are_kept, recalled, CachedView,
};
use crate::driver::info::{slashed, ReadWriteMode};
use crate::driver::laws::law_file_info;
use crate::driver::state::{ContextView, DriverView};
use vstd::prelude::*;

verus! {

/// The status of a change that is refused: the medium is write protected where
/// the volume is served read-only, and else the device failed.
pub open spec fn refusal(mode: ReadWriteMode) -> u32 {
    if mode == ReadWriteMode::ReadOnly {
        0xC00000A2
    } else {
        0xC0000185
    }
}

proof fn lemma_told(d: DriverView, c: ContextView, count: u32)
    ensures
        d.told(c, count).0 matches Err(s) ==> s == 0xC0000185,
        d.info(c, 0xC0000185).0 matches Err(s) ==> s == 0xC0000185,
        d.told(c, count).1.volume == d.volume,
        d.info(c, 0xC0000185).1.volume == d.volume,
{
}

/// A read-only volume refuses every write, and a writable one tells of every
/// write that fails that the device failed.
pub proof fn law_refused_write(
    d: DriverView,
    c: ContextView,
    data: Seq<u8>,
    at: u64,
    eof: bool,
    bound: bool,
    now: i64,
)
    ensures
        d.write(c, data, at, eof, bound, now).0 matches Err(s) ==> s == refusal(d.mode),
        d.mode == ReadWriteMode::ReadOnly ==> d.write(c, data, at, eof, bound, now).0 is Err,
{
    if d.mode == ReadWriteMode::ReadWriteUnsafe {
        let (r, after) = d.write(c, data, at, eof, bound, now);
        lemma_told(d, c, 0);
        if data.len() > 0 && eof {
            let w = d.volume.append(c.path, data, now).1;
            lemma_told(d.changed(w, c.path), c, data.len() as u32);
        } else {
            assert forall|x: Seq<u8>| (#[trigger] d.rewrite(c, x, at)).0 matches Err(s) ==> s
                == 0xC0000185 by {
                let (n, v) = d.volume.write_spans(c.extent_map, at as int, x);
                lemma_told(d.on(v), c, n->Ok_0 as u32);
            }
            assert(d.extend(c, data, at, now).0 matches Err(s) ==> s == 0xC0000185) by {
                let v = d.volume.grow(c.path, (at + data.len()) as u64, now).1;
                let map = (stat_and_map(v, c.path)->Ok_0).1;
                let w = v.write_spans(map, at as int, data).1;
                lemma_told(d.changed(w, c.path), c, data.len() as u32);
            }
        }
    }
}

/// A read-only volume refuses every new size, and a writable one tells of every
/// one that fails that the device failed.
pub proof fn law_refused_size(d: DriverView, c: ContextView, size: u64, now: i64)
    ensures
        d.resize(c, size, now).0 matches Err(s) ==> s == refusal(d.mode),
        d.mode == ReadWriteMode::ReadOnly ==> d.resize(c, size, now).0 is Err,
{
}

/// A read-only volume refuses new times, names and entries, and a writable one
/// tells of every one that fails that the device failed.
pub proof fn law_refused_changes(
    d: DriverView,
    c: ContextView,
    times: (u64, u64, u64, u64),
    from: Seq<char>,
    to: Seq<char>,
    replace: bool,
    options: u32,
    now: i64,
)
    ensures
        d.set_times(c, times.0, times.1, times.2, times.3).0 matches Err(s) ==> s == refusal(
            d.mode,
        ),
        d.rename(from, to, replace, now).0 matches Err(s) ==> s == refusal(d.mode),
        d.create(from, options, now).0 matches Err(s) ==> s == refusal(d.mode),
        d.mode == ReadWriteMode::ReadOnly ==> {
            &&& d.set_times(c, times.0, times.1, times.2, times.3).0 is Err
            &&& d.rename(from, to, replace, now).0 is Err
            &&& d.create(from, options, now).0 is Err
        },
{
}

/// After a rename nothing is remembered of either path, and what is remembered
/// of other paths stays.
proof fn lemma_both_forgotten(d: DriverView, a: Seq<char>, b: Seq<char>, other: Seq<char>)
    ensures
        recalled(d.forgetting(a).forgetting(b).cache, a) is None,
        recalled(d.forgetting(a).forgetting(b).cache, b) is None,
        other != a && other != b ==> recalled(d.forgetting(a).forgetting(b).cache, other)
            == recalled(d.cache, other),
{
    let x: CachedView = arbitrary();
    let c = d.forgetting(a).cache;
    law_noted_is_recalled(d.cache, 0, a, x);
    law_noted_is_recalled(c, 0, b, x);
    if a != b {
        law_other_paths_are_kept(c, 0, b, x, a);
    }
    if other != a && other != b {
        law_other_paths_are_kept(d.cache, 0, a, x, other);
        law_other_paths_are_kept(c, 0, b, x, other);
    }
}

/// Whether an object is what it was but for where it is.
pub open spec fn same_object(was: FileStat, is: FileStat) -> bool {
    &&& is.oid == was.oid
    &&& is.kind == was.kind
    &&& is.size == was.size
    &&& is.create_time == was.create_time
    &&& is.modify_time == was.modify_time
    &&& is.uid == was.uid
    &&& is.gid == was.gid
    &&& is.mode == was.mode
    &&& is.nlink == was.nlink
}

/// What was under the old path is under the new one after a rename, the same
/// object with the same size, times and owner, and nothing is under the old
/// path any more. Nothing is remembered of either.
pub proof fn law_rename_moves(
    d: DriverView,
    t: Tree,
    m: Set<u64>,
    from: Seq<char>,
    to: Seq<char>,
    replace: bool,
    now: i64,
    other: Seq<char>,
)
    requires
        d.volume.sound(t, m),
        d.rename(from, to, replace, now).0 is Ok,
        trimmed(slashed(from)) != trimmed(slashed(to)),
        d.volume.plan_move(slashed(from), slashed(to)) matches Ok(mv) && (mv.existing is None
            && can_rename(d.volume, t, mv, slashed(from), slashed(to)) || replace && can_replace(
            d.volume,
            t,
            mv,
            slashed(from),
            slashed(to),
        )),
    ensures
        ({
            let after = d.rename(from, to, replace, now).1;
            &&& d.volume.stat(slashed(from)) matches Ok(was)
            &&& after.volume.stat(slashed(to)) matches Ok(is)
            &&& same_object(was, is)
            &&& after.volume.stat(slashed(from)) is Err
            &&& recalled(after.cache, slashed(from)) is None
            &&& recalled(after.cache, slashed(to)) is None
            &&& other != slashed(from) && other != slashed(to) ==> recalled(after.cache, other)
                == recalled(d.cache, other)
        }),
{
    let f = slashed(from);
    let g = slashed(to);
    let mv = d.volume.plan_move(f, g)->Ok_0;
    if mv.existing is None {
        let u = law_rename_is_shown(d.volume, t, m, f, g, replace, now);
    } else {
        let u = law_rename_replaces(d.volume, t, m, f, g, now);
    }
    lemma_both_forgotten(d.on(d.volume.rename(f, g, replace, now).1), f, g, other);
}

/// A rename to a name that is free succeeds where there is room, and one to
/// the name of a file that may be replaced and can be deleted too.
pub proof fn law_rename_can_be_done(
    d: DriverView,
    t: Tree,
    m: Set<u64>,
    from: Seq<char>,
    to: Seq<char>,
    replace: bool,
    now: i64,
)
    requires
        d.volume.sound(t, m),
        d.mode == ReadWriteMode::ReadWriteUnsafe,
        trimmed(slashed(from)).len() > 0,
        trimmed(slashed(to)).len() > 0,
        trimmed(slashed(from)) != trimmed(slashed(to)),
        d.volume.plan_move(slashed(from), slashed(to)) matches Ok(mv) && (mv.existing is None
            && can_rename(d.volume, t, mv, slashed(from), slashed(to)) && room_to_rename(
            d.volume,
            mv,
            base_part(trimmed(slashed(from))),
            base_part(trimmed(slashed(to))),
        ) || replace && can_replace(d.volume, t, mv, slashed(from), slashed(to)) && room_to_rename(
            d.volume.unlink(slashed(to)).1,
            mv,
            base_part(trimmed(slashed(from))),
            base_part(trimmed(slashed(to))),
        ) && can_give_way(d.volume, t, slashed(to))),
    ensures
        d.rename(from, to, replace, now).0 is Ok,
{
    let mv = d.volume.plan_move(slashed(from), slashed(to))->Ok_0;
    if mv.existing is None {
        law_rename_succeeds(d.volume, t, m, slashed(from), slashed(to), replace, now);
    } else {
        law_replacing_rename_succeeds(d.volume, t, m, slashed(from), slashed(to), now);
    }
}

/// Whether a context is that of the file at its path, as opening it gives it.
pub open spec fn opened_file(v: VolumeView, t: Tree, m: Set<u64>, c: ContextView) -> bool {
    &&& v.block_size > 0
    &&& v.disk.len() % (v.block_size as nat) == 0
    &&& v.resolve(c.path) matches Ok((_, inode))
    &&& mode_kind(inode.mode) == INODE_FILE_TYPE
    &&& c.file_size == inode_size(inode)
    &&& v.extents(inode.private_id) matches Ok(exts)
    &&& c.extent_map == spans_of(exts, v.block_size)
    &&& sound_file(v, t, m, c.extent_map, c.file_size)
}

/// What is written inside an open file is read back from it, and the number of
/// bytes is told; the size stays. What would go past the end is left out where
/// the file may not grow.
#[verifier::spinoff_prover]
#[verifier::rlimit(40)]
pub proof fn law_write_inside_is_read_back(
    d: DriverView,
    t: Tree,
    m: Set<u64>,
    c: ContextView,
    data: Seq<u8>,
    offset: u64,
    constrained: bool,
    now: i64,
)
    requires
        d.mode == ReadWriteMode::ReadWriteUnsafe,
        d.volume.sound(t, m),
        opened_file(d.volume, t, m, c),
        0 < data.len() <= u32::MAX,
        offset < c.file_size,
        constrained || offset + data.len() <= c.file_size,
    ensures
        ({
            let (r, after) = d.write(c, data, offset, false, constrained, now);
            let n = if offset + data.len() <= c.file_size {
                data.len() as int
            } else {
                c.file_size - offset
            };
            &&& r matches Ok((count, _)) && count == n
            &&& d.volume.contents(c.path) matches Ok(was)
            &&& after.volume.contents(c.path) matches Ok(is)
            &&& is.len() == was.len()
            &&& forall|k: int| 0 <= k < n ==> #[trigger] is[offset + k] == data[k]
            &&& forall|k: int|
                0 <= k < was.len() && !(offset <= k < offset + n) ==> #[trigger] is[k] == was[k]
            &&& after.volume.stat(c.path) == d.volume.stat(c.path)
        }),
{
    law_overwrite_is_read_back(d.volume, t, m, c.path, offset, data);
    let w = d.volume.overwrite(c.path, offset, data).1;
    let n = if offset + data.len() <= c.file_size {
        data.len() as int
    } else {
        c.file_size - offset
    };
    let part = data.take(n);
    if n == data.len() {
        assert(part =~= data);
    }
    assert(d.volume.write_spans(c.extent_map, offset as int, part) == (Ok::<int, Fault>(n), w));
    assert(d.write(c, data, offset, false, constrained, now) == d.rewrite(c, part, offset));
    assert(w.resolve(c.path) == d.volume.resolve(c.path));
    lemma_told(d.on(w), c, n as u32);
    assert(d.write(c, data, offset, false, constrained, now) == d.on(w).told(c, n as u32));
    assert(d.on(w).told(c, n as u32).0 is Ok);
    let was = d.volume.contents(c.path)->Ok_0;
    law_streaming_gives_the_front(d.volume.disk, c.extent_map, c.file_size as int);
    assert(was.len() == c.file_size);
    let is = splice(was, offset as int, part);
    assert(w.contents(c.path) == Ok::<Seq<u8>, Fault>(is));
    assert forall|k: int| 0 <= k < n implies #[trigger] is[offset + k] == data[k] by {
        assert(part[k] == data[k]);
    }
}

/// A write that may not make the file longer and starts at its end or behind
/// it writes nothing, and so does one without bytes.
pub proof fn law_nothing_to_write(
    d: DriverView,
    c: ContextView,
    data: Seq<u8>,
    offset: u64,
    eof: bool,
    constrained: bool,
    now: i64,
)
    requires
        d.mode == ReadWriteMode::ReadWriteUnsafe,
        data.len() == 0 || !eof && constrained && offset >= c.file_size,
    ensures
        ({
            let (r, after) = d.write(c, data, offset, eof, constrained, now);
            &&& after.volume == d.volume
            &&& r matches Ok((count, _)) ==> count == 0
            &&& d.volume.stat(c.path) is Ok ==> r is Ok
        }),
{
}

/// What is written to the end of an open file is read back behind what it had,
/// whatever the offset was, and the size that is told afterwards is that of
/// both.
pub proof fn law_write_to_end_is_read_back(
    d: DriverView,
    t: Tree,
    m: Set<u64>,
    c: ContextView,
    data: Seq<u8>,
    offset: u64,
    constrained: bool,
    now: i64,
)
    requires
        d.volume.sound(t, m),
        0 < data.len() <= u32::MAX,
        d.volume.resolve(c.path) matches Ok((oid, inode)) && can_grow(d.volume, t, m, oid, inode)
            && inode_size(inode) + data.len() + d.volume.block_size <= u64::MAX,
        d.write(c, data, offset, true, constrained, now).0 is Ok,
    ensures
        ({
            let (r, after) = d.write(c, data, offset, true, constrained, now);
            let size = (d.volume.stat(c.path)->Ok_0).size;
            &&& d.volume.contents(c.path) matches Ok(was)
            &&& after.volume.contents(c.path) == Ok::<Seq<u8>, Fault>(up_to(was, size) + data)
            &&& after.volume.stat(c.path) matches Ok(s) && s.size == size + data.len()
            &&& r matches Ok((count, i)) && count == data.len() && i.file_size == size + data.len()
        }),
{
    let (u, inode) = law_append_is_read_back(d.volume, t, m, c.path, data, now);
    let w = d.volume.append(c.path, data, now).1;
    law_noted_is_recalled(d.cache, 0, c.path, arbitrary());
}

/// A write past the end of an open file leaves the volume as making the file as
/// long as needed, opening it again and writing inside it does.
pub proof fn law_write_past_end_is_resize_and_write(
    d: DriverView,
    c: ContextView,
    data: Seq<u8>,
    offset: u64,
    now: i64,
)
    requires
        d.mode == ReadWriteMode::ReadWriteUnsafe,
        0 < data.len() <= u32::MAX,
        offset + data.len() <= u64::MAX,
        c.file_size < offset + data.len(),
        slashed(c.path) == c.path,
        d.write(c, data, offset, false, false, now).0 is Ok,
        ({
            let longer = d.resize(c, (offset + data.len()) as u64, now).1;
            longer.volume.stat(c.path) matches Ok(s) && s.kind is File && s.size == offset
                + data.len()
        }),
    ensures
        ({
            let (r, after) = d.write(c, data, offset, false, false, now);
            let longer = d.resize(c, (offset + data.len()) as u64, now).1;
            let fresh = DriverView { cache: seq![], ..longer };
            &&& fresh.open(c.path).0 matches Ok((o, _)) && longer.write(
                o,
                data,
                offset,
                false,
                true,
                now,
            ).1.volume == after.volume
            &&& r matches Ok((count, _)) && count == data.len()
        }),
{
    let size = (offset + data.len()) as u64;
    let (r, after) = d.write(c, data, offset, false, false, now);
    assert((r, after) == d.extend(c, data, offset, now));
    let v = d.volume.grow(c.path, size, now).1;
    let (s, map, n) = stat_and_map(v, c.path)->Ok_0;
    let w = v.write_spans(map, offset as int, data).1;
    let longer = d.resize(c, size, now).1;
    lemma_told(d.changed(v, c.path), c, 0);
    assert(longer.volume == v);
    lemma_told(d.changed(w, c.path), c, data.len() as u32);
    assert(after.volume == w);
    let fresh = DriverView { cache: seq![], ..longer };
    let o = ContextView { path: c.path, extent_map: map, file_size: n };
    assert(n == size);
    assert(recalled(fresh.cache, c.path) is None);
    assert(fresh.open(c.path).0 matches Ok((x, _)) && x == o);
    assert(longer.write(o, data, offset, false, true, now) == longer.rewrite(o, data, offset));
    let k = v.write_spans(map, offset as int, data).0->Ok_0;
    lemma_told(longer.on(w), o, k as u32);
}

/// A file that was made longer has what it had and zeros behind it, and one
/// that was cut has the front of what it had. The size that is told afterwards
/// is the one that was asked for.
pub proof fn law_resized_file_is_read_back(
    d: DriverView,
    t: Tree,
    m: Set<u64>,
    c: ContextView,
    size: u64,
    now: i64,
)
    requires
        d.volume.sound(t, m),
        opened_file(d.volume, t, m, c),
        size > c.file_size ==> (d.volume.resolve(c.path) matches Ok((oid, inode)) && can_grow(
            d.volume,
            t,
            m,
            oid,
            inode,
        ) && size + d.volume.block_size <= u64::MAX),
        d.resize(c, size, now).0 is Ok,
    ensures
        ({
            let (r, after) = d.resize(c, size, now);
            &&& d.volume.contents(c.path) matches Ok(was)
            &&& after.volume.contents(c.path) matches Ok(is)
            &&& is.len() == size
            &&& forall|k: int|
                0 <= k < size ==> #[trigger] is[k] == (if k < was.len() {
                    was[k]
                } else {
                    0
                })
            &&& size != c.file_size ==> (r matches Ok(i) && i.file_size == size)
            &&& after.volume.stat(c.path) matches Ok(s) && s.size == size
        }),
{
    let (oid, inode) = d.volume.resolve(c.path)->Ok_0;
    law_streaming_gives_the_front(
        d.volume.disk,
        c.extent_map,
        c.file_size as int,
    );
    law_noted_is_recalled(d.cache, 0, c.path, arbitrary());
    if size > c.file_size {
        let (u, i) = law_grow_adds_zeros(d.volume, t, m, c.path, size, now);
        let w = d.volume.grow(c.path, size, now).1;
        assert(w.resolve(c.path) == Ok::<(u64, InodeVal), Fault>((oid, i)));
    } else if size < c.file_size {
        let u = law_set_size_is_shown(d.volume, t, m, c.path, size);
    }
}

/// What is made through a driver is there afterwards: a directory where the
/// create options say so, and else an empty file, with the next object id, of
/// the time at which it was made, and it is opened.
pub proof fn law_created_file_is_open(
    d: DriverView,
    t: Tree,
    m: Set<u64>,
    name: Seq<char>,
    options: u32,
    now: i64,
)
    requires
        d.mode == ReadWriteMode::ReadWriteUnsafe,
        d.volume.sound(t, m),
        trimmed(slashed(name)).len() > 0,
        d.volume.parent_of(slashed(name)) is Ok,
        can_create(d.volume, t, slashed(name)),
        room_to_create(d.volume, t, slashed(name)),
        d.volume.extents(d.volume.next_obj_id) is Ok,
    ensures
        ({
            let (r, after) = d.create(name, options, now);
            let path = slashed(name);
            let is_dir = options % 2 == 1;
            &&& after.volume.stat(path) matches Ok(s)
            &&& s.oid == d.volume.next_obj_id
            &&& s.kind is Directory <==> is_dir
            &&& s.kind is File <==> !is_dir
            &&& s.size == 0
            &&& s.create_time == now
            &&& s.modify_time == now
            &&& s.uid == 0 && s.gid == 0
            &&& is_dir ==> s.mode == 0o40755 && s.nlink == 0
            &&& !is_dir ==> s.mode == 0o100644 && s.nlink == 1
            &&& r matches Ok((c, i))
            &&& c.path == path
            &&& c.file_size == 0
            &&& i.file_size == 0
            &&& i.index_number == s.oid
            &&& i.file_attributes == 0x10 <==> is_dir
            &&& now >= 0 ==> i.creation_time == 116444736000000000 + now as int / 100
            &&& recalled(after.cache, path) matches Some(known) && known.stat == s
            &&& after.open(name).0 == r
        }),
{
    let path = slashed(name);
    let v = d.volume;
    assert(options & 1 != 0 <==> options % 2 == 1) by (bit_vector);
    let is_dir = options % 2 == 1;
    let dir = v.parent_of(path)->Ok_0;
    law_new_objects(dir, v.next_obj_id, is_dir, now);
    law_mode_tells_kind(new_inode(dir, v.next_obj_id, is_dir, now));
    let who = if is_dir {
        "create_directory"@
    } else {
        "create_file"@
    };
    law_create_succeeds(v, t, m, path, who, is_dir, now);
    let u = law_create_is_shown(v, t, m, path, who, is_dir, now);
    let w = v.create(path, who, is_dir, now).1;
    let c = d.on(w).resolved(path)->0;
    assert(d.on(w).resolved(path) is Some);
    law_noted_is_recalled(d.cache, d.capacity, path, c);
    law_file_info(c.stat, c.file_size, d.mode);
}

/// Closing the last handle deletes the file only where the delete flag is set
/// and the volume may be written: then what may be marked for deletion, and
/// can be deleted, is gone.
pub proof fn law_cleanup_deletes(
    d: DriverView,
    t: Tree,
    m: Set<u64>,
    c: ContextView,
    flags: u32,
)
    ensures
        flags % 2 == 0 || d.mode == ReadWriteMode::ReadOnly ==> d.cleanup(c, flags) == d,
        flags % 2 == 1 && d.mode == ReadWriteMode::ReadWriteUnsafe && d.volume.sound(t, m)
            && recalled(d.cache, c.path) is None && trimmed(c.path).len() > 0 && counts_entry(
            d.volume,
            t,
            c.path,
        ) && can_commit(d.volume) && d.deletable(c, true) is Ok && (d.volume.resolve(c.path)
            matches Ok((oid, inode)) && (mode_kind(inode.mode) == INODE_DIR_TYPE
            && inode.nchildren_or_nlink == 0 || mode_kind(inode.mode) == INODE_FILE_TYPE
            && inode.nchildren_or_nlink == 1 && d.volume.hit(oid, J_TYPE_XATTR) == Ok::<
            Option<(Seq<u8>, u64)>,
            Fault,
        >(None))) ==> {
            let after = d.cleanup(c, flags);
            &&& after.volume.stat(c.path) is Err
            &&& after.volume.presence(c.path) == Ok::<bool, Fault>(false)
            &&& recalled(after.cache, c.path) is None
        },
{
    assert(flags & 1 != 0 <==> flags % 2 == 1) by (bit_vector);
    law_noted_is_recalled(d.looked_up(c.path).cache, 0, c.path, arbitrary());
    if flags % 2 == 1 && d.mode == ReadWriteMode::ReadWriteUnsafe && d.volume.sound(t, m)
        && recalled(d.cache, c.path) is None && trimmed(c.path).len() > 0 && counts_entry(
        d.volume,
        t,
        c.path,
    ) && can_commit(d.volume) {
        let (oid, inode) = d.volume.resolve(c.path)->Ok_0;
        if mode_kind(inode.mode) == INODE_DIR_TYPE && inode.nchildren_or_nlink == 0 {
            law_remove_directory_succeeds(d.volume, t, m, c.path);
            let u = law_remove_directory_is_shown(d.volume, t, m, c.path);
        } else if mode_kind(inode.mode) == INODE_FILE_TYPE && inode.nchildren_or_nlink == 1
            && d.volume.hit(oid, J_TYPE_XATTR) == Ok::<Option<(Seq<u8>, u64)>, Fault>(None) {
            law_unlink_succeeds(d.volume, t, m, c.path);
            let u = law_unlink_is_shown(d.volume, t, m, c.path);
        }
    }
}

/// To overwrite a file with an allocation is to set its size to that of the
/// allocation.
pub proof fn law_overwriting_sets_size(d: DriverView, c: ContextView, allocation: u64, now: i64)
    ensures
        d.overwritten(c, allocation, now) == d.resize(c, allocation, now),
        d.mode == ReadWriteMode::ReadOnly ==> d.overwritten(c, allocation, now).0 is Err,
{
}

} // verus!
