//! What a driver tells of files that are opened, read and asked about.

use crate::apfs::error::Fault;
use crate::apfs::extents::{fork, law_streaming_gives_the_front, spans_of};
use crate::apfs::layouts::law_mode_tells_kind;
use crate::apfs::types::DirEntryView;
use crate::apfs::volume::data::sound_file;
use crate::apfs::volume::read::walked_path;
use crate::apfs::volume::state::{open_outcome, VolumeView};
use crate::apfs::volume::tree::Tree;
use crate::driver::cache::{law_noted_is_recalled, law_other_paths_are_kept, recalled};
use crate::driver::info::{slashed, FileInfo, ReadWriteMode};
use crate::driver::law_change::opened_file;
use crate::driver::laws::{lemma_path_in_directory, path_in_directory};
use crate::driver::serve::{entry_cached, law_reads_give_slices, parent_prefix};
use crate::driver::state::{allowed, driver_outcome, ContextView, DriverView};
use vstd::prelude::*;

verus! {

/// Read/write access needs the words "1" of who asks for it; read-only access
/// needs nothing.
pub proof fn law_writing_needs_acknowledgement(words: Option<Seq<char>>)
    ensures
        allowed(ReadWriteMode::ReadOnly, words),
        allowed(ReadWriteMode::ReadWriteUnsafe, words) <==> words == Some(seq!['1']),
{
    reveal_strlit("1");
    assert("1"@ =~= seq!['1']);
}

/// A path that nothing is remembered of is opened as what the volume has there:
/// the file with its size, or the directory, which has none. What is told of it
/// is what is told of it later. What is not there is not found.
pub proof fn law_open_shows_what_is_there(d: DriverView, name: Seq<char>, missing: u32)
    requires
        recalled(d.cache, slashed(name)) is None,
    ensures
        ({
            let (r, after) = d.open(name);
            let path = slashed(name);
            &&& after.volume == d.volume
            &&& d.volume.stat(path) is Err ==> r == Err::<(ContextView, FileInfo), u32>(0xC0000034)
            &&& r matches Err(e) ==> e == 0xC0000034
            &&& d.volume.stat(path) matches Ok(s) ==> (s.kind is Directory ==> r is Ok)
            &&& r matches Ok((c, i)) ==> {
                &&& c.path == path
                &&& d.volume.stat(path) matches Ok(s)
                &&& s.kind is Directory ==> c.file_size == 0 && c.extent_map.len() == 0
                &&& !(s.kind is Directory) ==> c.file_size == s.size
                &&& i.file_size == c.file_size
                &&& i.index_number == s.oid
                &&& i.file_attributes == 0x10 <==> s.kind is Directory
                &&& !(s.kind is Directory) ==> (d.info(c, missing).0 matches Ok(told) && told == i)
            }
        }),
{
}

/// What was opened is remembered: opening it again gives the same, and so does
/// asking about it or about its attributes.
pub proof fn law_opened_file_is_remembered(d: DriverView, name: Seq<char>, missing: u32)
    requires
        d.open(name).0 is Ok,
    ensures
        ({
            let (r, after) = d.open(name);
            let (c, i) = r->Ok_0;
            &&& after.open(name).0 == r
            &&& after.info(c, missing).0 == Ok::<FileInfo, u32>(i)
            &&& slashed(name).len() > 1 ==> after.security(name).0 == Ok::<u32, u32>(
                i.file_attributes,
            )
        }),
{
    reveal_strlit("/");
    let path = slashed(name);
    let s = d.looked_up(path).cache;
    match d.resolved(path) {
        Some(c) => {
            law_noted_is_recalled(d.cache, d.capacity, path, c);
            law_noted_is_recalled(s, d.capacity, path, c);
        },
        None => {
            law_noted_is_recalled(d.cache, d.capacity, path, arbitrary());
        },
    }
}

/// The attributes of a path that nothing is remembered of say whether a
/// directory is there; the root is one. What is not there is not found.
pub proof fn law_attributes_by_name(d: DriverView, name: Seq<char>)
    ensures
        slashed(name) == seq!['/'] || name.len() == 0 ==> d.security(name) == (
            Ok::<u32, u32>(0x10),
            d,
        ),
        slashed(name) != seq!['/'] && name.len() > 0 && recalled(d.cache, slashed(name)) is None
            ==> {
            &&& d.volume.stat(slashed(name)) is Err ==> d.security(name).0 == Err::<u32, u32>(
                0xC0000034,
            )
            &&& d.security(name).0 matches Ok(a) ==> (d.volume.stat(slashed(name)) matches Ok(s) && (
            a == 0x10 <==> s.kind is Directory) && (a == 0x1 <==> !(s.kind is Directory) && d.mode
                == ReadWriteMode::ReadOnly))
        },
        d.security(name).1.volume == d.volume,
{
    reveal_strlit("/");
    assert("/"@ =~= seq!['/']);
}

/// Reading an open file gives its bytes from the offset on, as many as were
/// asked for or as there are; behind the end there are none.
pub proof fn law_read_gives_contents(
    d: DriverView,
    t: Tree,
    m: Set<u64>,
    c: ContextView,
    offset: u64,
    len: int,
)
    requires
        opened_file(d.volume, t, m, c),
        0 <= len,
    ensures
        ({
            let size = (d.volume.stat(c.path)->Ok_0).size as int;
            let end = if offset + len <= size {
                offset + len
            } else {
                size
            };
            &&& d.volume.contents(c.path) matches Ok(all)
            &&& all.len() == size
            &&& offset < size ==> d.read(c, offset, len) == Ok::<Seq<u8>, u32>(
                all.subrange(offset as int, end),
            )
            &&& offset >= size ==> d.read(c, offset, len) == Ok::<Seq<u8>, u32>(seq![])
        }),
{
    let size = c.file_size as int;
    law_streaming_gives_the_front(d.volume.disk, c.extent_map, size);
    if offset < size {
        let n = if len <= size - offset {
            len
        } else {
            size - offset
        };
        law_reads_give_slices(d.volume.disk, c.extent_map, offset as int, n);
        let f = fork(d.volume.disk, c.extent_map);
        assert(f.take(size).subrange(offset as int, offset + n) =~= f.subrange(
            offset as int,
            offset + n,
        ));
    }
}

proof fn lemma_met_all(
    d: DriverView,
    parent: Seq<char>,
    entries: Seq<DirEntryView>,
    i: int,
    path: Seq<char>,
)
    requires
        0 <= i <= entries.len(),
        d.cache.len() + entries.len() - i <= d.capacity,
        recalled(d.cache, path) is Some,
    ensures
        recalled(d.met_all(parent, entries, i).cache, path) == recalled(d.cache, path),
        d.met_all(parent, entries, i).volume == d.volume,
        d.met_all(parent, entries, i).mode == d.mode,
    decreases entries.len() - i,
{
    if i < entries.len() {
        let at = walked_path(parent, entries[i].name);
        let e = d.met(parent, entries[i]);
        if at != path {
            law_other_paths_are_kept(d.cache, d.capacity, at, entry_cached(entries[i]), path);
        }
        lemma_met_all(e, parent, entries, i + 1, path);
    }
}

proof fn lemma_met_later(
    d: DriverView,
    parent: Seq<char>,
    entries: Seq<DirEntryView>,
    i: int,
    k: int,
)
    requires
        0 <= i <= k < entries.len(),
        d.cache.len() + entries.len() - i <= d.capacity,
        recalled(d.cache, walked_path(parent, entries[k].name)) is None,
        forall|j: int|
            i <= j < k ==> walked_path(parent, (#[trigger] entries[j]).name) != walked_path(
                parent,
                entries[k].name,
            ),
    ensures
        recalled(d.met_all(parent, entries, i).cache, walked_path(parent, entries[k].name))
            == Some(entry_cached(entries[k])),
        d.met_all(parent, entries, i).volume == d.volume,
        d.met_all(parent, entries, i).mode == d.mode,
    decreases k - i,
{
    let path = walked_path(parent, entries[k].name);
    let at = walked_path(parent, entries[i].name);
    let e = d.met(parent, entries[i]);
    if i == k {
        law_noted_is_recalled(d.cache, d.capacity, path, entry_cached(entries[k]));
        lemma_met_all(e, parent, entries, i + 1, path);
    } else {
        law_other_paths_are_kept(d.cache, d.capacity, at, entry_cached(entries[i]), path);
        lemma_met_later(e, parent, entries, i + 1, k);
    }
}

/// Where there is room to remember them, the files of a directory that was
/// listed are told of as the listing told of them: asking about one by its path
/// gives what its line has.
pub proof fn law_listed_files_are_remembered(d: DriverView, context: ContextView, k: int)
    requires
        d.list(context).0 is Ok,
        2 <= k < d.list(context).0->Ok_0.len(),
        d.cache.len() + d.list(context).0->Ok_0.len() <= d.capacity,
        ({
            let lines = d.list(context).0->Ok_0;
            &&& recalled(d.cache, path_in_directory(context.path, lines[k].name)) is None
            &&& forall|j: int|
                2 <= j < k ==> path_in_directory(context.path, (#[trigger] lines[j]).name)
                    != path_in_directory(context.path, lines[k].name)
        }),
    ensures
        ({
            let (r, after) = d.list(context);
            let line = r->Ok_0[k];
            let file = ContextView { path: path_in_directory(context.path, line.name), ..context };
            &&& after.volume == d.volume
            &&& after.info(file, 0).0 == Ok::<FileInfo, u32>(line.info)
        }),
{
    let entries = d.volume.listing(context.path)->Ok_0;
    let lines = d.list(context).0->Ok_0;
    let parent = parent_prefix(context.path);
    assert(lines[k].name == entries[k - 2].name);
    lemma_path_in_directory(context.path, entries[k - 2].name);
    assert forall|j: int| 0 <= j < k - 2 implies walked_path(parent, (#[trigger] entries[j]).name)
        != walked_path(parent, entries[k - 2].name) by {
        assert(lines[j + 2].name == entries[j].name);
        lemma_path_in_directory(context.path, entries[j].name);
    }
    lemma_met_later(d, parent, entries, 0, k - 2);
}

/// A volume is served as it is mounted, with nothing remembered yet and room
/// for 4096 paths. Who asks to write without acknowledging it gets nothing.
pub proof fn law_served_volume(disk: Seq<u8>, mode: ReadWriteMode, words: Option<Seq<char>>)
    ensures
        mode == ReadWriteMode::ReadWriteUnsafe && words != Some(seq!['1']) ==> driver_outcome(
            disk,
            mode,
            words,
        ) is Err,
        mode == ReadWriteMode::ReadOnly || words == Some(seq!['1']) ==> (driver_outcome(
            disk,
            mode,
            words,
        ) is Ok <==> open_outcome(disk) is Ok),
        driver_outcome(disk, mode, words) matches Ok(d) ==> {
            &&& open_outcome(disk) == Ok::<VolumeView, Fault>(d.volume)
            &&& d.mode == mode
            &&& d.cache.len() == 0
            &&& d.capacity == 4096
        },
{
    law_writing_needs_acknowledgement(words);
}

/// A file that is opened and read gives its contents: what is read is the part
/// of them that was asked for, up to their end.
pub proof fn law_opened_file_is_read(
    d: DriverView,
    t: Tree,
    m: Set<u64>,
    name: Seq<char>,
    offset: u64,
    len: int,
)
    requires
        recalled(d.cache, slashed(name)) is None,
        0 <= len,
        d.volume.block_size > 0,
        d.volume.disk.len() % (d.volume.block_size as nat) == 0,
        d.volume.resolve(slashed(name)) matches Ok((_, i)) && i.mode / 0x1000 == 8 && (
        d.volume.extents(i.private_id) matches Ok(exts) && sound_file(
            d.volume,
            t,
            m,
            spans_of(exts, d.volume.block_size),
            (d.volume.stat(slashed(name))->Ok_0).size,
        )),
    ensures
        ({
            let path = slashed(name);
            &&& d.open(name).0 matches Ok((c, _))
            &&& d.volume.contents(path) matches Ok(all)
            &&& all.len() == (d.volume.stat(path)->Ok_0).size
            &&& offset >= all.len() ==> d.read(c, offset, len) == Ok::<Seq<u8>, u32>(seq![])
            &&& offset < all.len() && offset + len <= all.len() ==> d.read(c, offset, len) == Ok::<
                Seq<u8>,
                u32,
            >(all.subrange(offset as int, offset + len))
            &&& offset < all.len() && offset + len > all.len() ==> d.read(c, offset, len) == Ok::<
                Seq<u8>,
                u32,
            >(all.skip(offset as int))
        }),
{
    let path = slashed(name);
    let (_, i) = d.volume.resolve(path)->Ok_0;
    law_mode_tells_kind(i);
    let (c, _) = d.open(name).0->Ok_0;
    assert(opened_file(d.volume, t, m, c));
    law_read_gives_contents(d, t, m, c, offset, len);
    let all = d.volume.contents(path)->Ok_0;
    assert(offset < all.len() ==> all.skip(offset as int) =~= all.subrange(
        offset as int,
        all.len() as int,
    ));
}

} // verus!
