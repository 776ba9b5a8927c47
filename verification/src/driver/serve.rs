//! What a served volume answers without being changed.

use crate::apfs::bytes::{put_bytes, splice};
use crate::apfs::catalog::query::told_outcome;
use crate::apfs::device::ReadAt;
use crate::apfs::extents::{
    fork, fork_end, fork_read, law_fork_read_is_a_slice, place_of, sound_fork, translate,
};
use crate::apfs::text::text_str;
use crate::apfs::types::{entries_view, DirEntry, DirEntryView, EntryKind, FileStat, VolumeInfo};
use crate::apfs::utf8::same_text;
use crate::apfs::volume::read::{stat_and_map, walked_path};
use crate::driver::cache::{cache_contains, recalled, CachedStat, CachedView};
use crate::driver::info::{
    attributes, entry_kind_to_attributes, file_info, fill_file_info, slash_path, slashed, FileInfo,
    ReadWriteMode, FILE_ATTRIBUTE_DIRECTORY, STATUS_END_OF_FILE, STATUS_NOT_A_DIRECTORY,
    STATUS_OBJECT_NAME_NOT_FOUND,
};
use crate::driver::state::{
    law_driver_stays_well_formed, ApfsDriver, ApfsFileContext, ContextView, DriverView,
};
use vstd::prelude::*;

verus! {

/// One line of a directory listing.
pub struct DirLine {
    pub name: String,
    pub info: FileInfo,
}

/// The contents of a [`DirLine`].
#[verifier::ext_equal]
pub struct DirLineView {
    pub name: Seq<char>,
    pub info: FileInfo,
}

impl View for DirLine {
    type V = DirLineView;

    open spec fn view(&self) -> DirLineView {
        DirLineView { name: self.name@, info: self.info }
    }
}

/// Lines, taken by view.
pub open spec fn lines_view(s: Seq<DirLine>) -> Seq<DirLineView> {
    s.map_values(|x: DirLine| x@)
}

/// What is told of a directory by its attributes alone.
pub open spec fn dot_info() -> FileInfo {
    FileInfo {
        file_attributes: FILE_ATTRIBUTE_DIRECTORY,
        file_size: 0,
        allocation_size: 0,
        creation_time: 0,
        last_access_time: 0,
        last_write_time: 0,
        change_time: 0,
        index_number: 0,
    }
}

/// What a directory entry says of its object.
pub open spec fn entry_stat(e: DirEntryView) -> FileStat {
    FileStat {
        oid: e.oid,
        kind: e.kind,
        size: e.size,
        create_time: e.create_time,
        modify_time: e.modify_time,
        uid: 0,
        gid: 0,
        mode: 0,
        nlink: 1,
    }
}

/// What a directory entry has to say for the cache.
pub open spec fn entry_cached(e: DirEntryView) -> CachedView {
    CachedView {
        stat: entry_stat(e),
        extent_map: seq![],
        file_size: e.size,
        extents_resolved: false,
    }
}

/// The bytes from `pos` on, `want` of them or as many as lie on the disk, from
/// the places that an extent map gives. Where the map has none, the request
/// fails.
pub open spec fn served(disk: Seq<u8>, map: Seq<(u64, u64, u64)>, pos: int, want: int) -> Result<
    Seq<u8>,
    u32,
>
    decreases want,
{
    if want <= 0 {
        Ok(seq![])
    } else {
        match place_of(map, pos) {
            None => Err(STATUS_END_OF_FILE),
            Some((phys, run)) => {
                let n = served_run(disk, phys, run, want);
                if n <= 0 {
                    Ok(seq![])
                } else {
                    served_after(
                        disk.subrange(phys as int, phys + n),
                        served(disk, map, pos + n, want - n),
                    )
                }
            },
        }
    }
}

/// How many bytes can be had in one go.
pub open spec fn served_run(disk: Seq<u8>, phys: u64, run: u64, want: int) -> int {
    let n = if run <= want {
        run as int
    } else {
        want
    };
    if n <= disk.len() - phys {
        n
    } else {
        disk.len() - phys
    }
}

/// Bytes in front of what comes after them.
pub open spec fn served_after(seen: Seq<u8>, rest: Result<Seq<u8>, u32>) -> Result<Seq<u8>, u32> {
    match rest {
        Err(e) => Err(e),
        Ok(b) => Ok(seen + b),
    }
}

/// The parent that the paths of a directory's entries start with.
pub open spec fn parent_prefix(path: Seq<char>) -> Seq<char> {
    if path == "/"@ || path.len() == 0 { seq![] } else { path }
}

/// The lines of a listing behind `.` and `..`.
pub open spec fn entry_lines(
    entries: Seq<DirEntryView>,
    mode: ReadWriteMode,
) -> Seq<DirLineView> {
    entries.map_values(
        |e: DirEntryView| DirLineView { name: e.name, info: file_info(entry_stat(e), e.size, mode) },
    )
}

/// A listing.
pub open spec fn listing_lines(
    entries: Seq<DirEntryView>,
    mode: ReadWriteMode,
) -> Seq<DirLineView> {
    seq![
        DirLineView { name: "."@, info: dot_info() },
        DirLineView { name: ".."@, info: dot_info() },
    ] + entry_lines(entries, mode)
}

impl DriverView {
    /// What is noted of an object after it was looked up on the volume.
    pub open spec fn resolved(self, path: Seq<char>) -> Option<CachedView> {
        match stat_and_map(self.volume, path) {
            Err(_) => None,
            Ok((stat, extent_map, file_size)) => Some(
                CachedView { stat, extent_map, file_size, extents_resolved: true },
            ),
        }
    }

    /// The attributes of the object that a name stands for.
    pub open spec fn security(self, file_name: Seq<char>) -> (Result<u32, u32>, DriverView) {
        let path = slashed(file_name);
        if path == "/"@ || path.len() == 0 {
            (Ok(FILE_ATTRIBUTE_DIRECTORY), self)
        } else {
            let d = self.looked_up(path);
            match recalled(self.cache, path) {
                Some(c) => (Ok(attributes(c.stat.kind, self.mode)), d),
                None => match self.resolved(path) {
                    None => (Err(STATUS_OBJECT_NAME_NOT_FOUND), d),
                    Some(c) => (Ok(attributes(c.stat.kind, self.mode)), d.noting(path, c)),
                },
            }
        }
    }

    /// What opening a file gives: its path, and what is known of it.
    pub open spec fn open(self, file_name: Seq<char>) -> (
        Result<(ContextView, FileInfo), u32>,
        DriverView,
    ) {
        let path = slashed(file_name);
        let d = self.looked_up(path);
        match recalled(self.cache, path) {
            Some(c) if c.extents_resolved || c.stat.kind == EntryKind::Directory => (
                Ok(self.opened_as(path, c)),
                d,
            ),
            _ => match self.resolved(path) {
                None => (Err(STATUS_OBJECT_NAME_NOT_FOUND), d),
                Some(c) => (Ok(self.opened_as(path, c)), d.noting(path, c)),
            },
        }
    }

    /// An opened file of which `c` is known.
    pub open spec fn opened_as(self, path: Seq<char>, c: CachedView) -> (ContextView, FileInfo) {
        (
            ContextView { path, extent_map: c.extent_map, file_size: c.file_size },
            file_info(c.stat, c.file_size, self.mode),
        )
    }

    /// The bytes of an open file that a read of at most `len` gets.
    pub open spec fn read(self, context: ContextView, offset: u64, len: int) -> Result<
        Seq<u8>,
        u32,
    > {
        if offset >= context.file_size {
            Ok(seq![])
        } else {
            served(
                self.volume.disk,
                context.extent_map,
                offset as int,
                if len <= context.file_size - offset {
                    len
                } else {
                    context.file_size - offset
                },
            )
        }
    }

    /// What is told of an open file.
    pub open spec fn info(self, context: ContextView, missing: u32) -> (
        Result<FileInfo, u32>,
        DriverView,
    ) {
        let d = self.looked_up(context.path);
        match recalled(self.cache, context.path) {
            Some(c) => (Ok(file_info(c.stat, c.file_size, self.mode)), d),
            None => match self.volume.stat(context.path) {
                Err(_) => (Err(missing), d),
                Ok(stat) => (Ok(file_info(stat, stat.size, self.mode)), d),
            },
        }
    }

    /// After a directory entry was met: its path is noted unless something is
    /// known of it.
    pub open spec fn met(self, parent: Seq<char>, e: DirEntryView) -> DriverView {
        let path = walked_path(parent, e.name);
        if recalled(self.cache, path) is Some { self } else { self.noting(path, entry_cached(e)) }
    }

    /// After the entries from `i` on were met.
    pub open spec fn met_all(self, parent: Seq<char>, entries: Seq<DirEntryView>, i: int) -> DriverView
        decreases entries.len() - i,
    {
        if i >= entries.len() || i < 0 {
            self
        } else {
            self.met(parent, entries[i]).met_all(parent, entries, i + 1)
        }
    }

    /// The listing of an open directory.
    pub open spec fn list(self, context: ContextView) -> (
        Result<Seq<DirLineView>, u32>,
        DriverView,
    ) {
        match self.volume.listing(context.path) {
            Err(_) => (Err(STATUS_NOT_A_DIRECTORY), self),
            Ok(entries) => (
                Ok(listing_lines(entries, self.mode)),
                self.met_all(parent_prefix(context.path), entries, 0),
            ),
        }
    }

    /// Whether lines and state come of entries that are those of the directory,
    /// with size and times 0 where an inode could not be had.
    pub open spec fn listed(
        self,
        context: ContextView,
        seen: Seq<DirEntryView>,
        lines: Seq<DirLineView>,
        after: DriverView,
    ) -> bool {
        &&& told_outcome(Ok(seen), self.volume.listing(context.path))
        &&& lines == listing_lines(seen, self.mode)
        &&& after == self.met_all(parent_prefix(context.path), seen, 0)
    }
}

/// An opened file, taken by view.
pub open spec fn open_view(r: Result<(ApfsFileContext, FileInfo), u32>) -> Result<
    (ContextView, FileInfo),
    u32,
> {
    match r {
        Ok((c, i)) => Ok((c@, i)),
        Err(e) => Err(e),
    }
}

/// A listing, taken by view.
pub open spec fn list_view(r: Result<Vec<DirLine>, u32>) -> Result<Seq<DirLineView>, u32> {
    match r {
        Ok(v) => Ok(lines_view(v@)),
        Err(e) => Err(e),
    }
}

fn is_root(path: &str) -> (r: bool)
    ensures
        r == (path@ == "/"@ || path@.len() == 0),
{
    same_text(path, "/") || path.unicode_len() == 0
}

fn dot_line(name: &str) -> (l: DirLine)
    ensures
        l@ == (DirLineView { name: name@, info: dot_info() }),
{
    DirLine {
        name: name.to_string(),
        info: FileInfo {
            file_attributes: FILE_ATTRIBUTE_DIRECTORY,
            file_size: 0,
            allocation_size: 0,
            creation_time: 0,
            last_access_time: 0,
            last_write_time: 0,
            change_time: 0,
            index_number: 0,
        },
    }
}

fn stat_of_entry(e: &DirEntry) -> (s: FileStat)
    ensures
        s == entry_stat(e@),
{
    FileStat {
        oid: e.oid,
        kind: e.kind,
        size: e.size,
        create_time: e.create_time,
        modify_time: e.modify_time,
        uid: 0,
        gid: 0,
        mode: 0,
        nlink: 1,
    }
}

/// Read up to `dst.len()` bytes through an extent map. Returns how many there
/// were before the disk ended.
fn serve<D: ReadAt>(dev: &D, map: &[(u64, u64, u64)], pos: u64, want: usize, dst: &mut [u8]) -> (r:
    Result<usize, u32>)
    requires
        want <= old(dst).len(),
        pos + want <= u64::MAX,
    ensures
        final(dst)@.len() == old(dst)@.len(),
        match r {
            Ok(n) => {
                &&& n <= want
                &&& served(dev.bytes(), map@, pos as int, want as int) matches Ok(b) && b.len() == n
                    && final(dst)@ == splice(old(dst)@, 0, b)
            },
            Err(e) => e == STATUS_END_OF_FILE && (dev.reliable() ==> served(
                dev.bytes(),
                map@,
                pos as int,
                want as int,
            ) == Err::<Seq<u8>, u32>(e)),
        },
{
    let size: u64 = dev.size();
    let mut total: usize = 0;
    let ghost mut seen: Seq<u8> = seq![];
    proof {
        let all = served(dev.bytes(), map@, pos as int, want as int);
        if let Ok(b) = all {
            assert(seen + b =~= b);
        }
        assert(dst@ =~= splice(old(dst)@, 0, seen));
    }
    while total < want
        invariant
            total <= want <= dst@.len(),
            dst@.len() == old(dst)@.len(),
            pos + want <= u64::MAX,
            size == dev.bytes().len(),
            seen.len() == total,
            dst@ == splice(old(dst)@, 0, seen),
            served(dev.bytes(), map@, pos as int, want as int) == served_after(
                seen,
                served(dev.bytes(), map@, pos + total, want - total),
            ),
        decreases want - total,
    {
        let at: u64 = pos + total as u64;
        let (phys, run) = match translate(map, at) {
            None => {
                return Err(STATUS_END_OF_FILE);
            },
            Some(x) => x,
        };
        let left: usize = want - total;
        let mut n: usize = if run <= left as u64 {
            run as usize
        } else {
            left
        };
        let there: u64 = if phys < size {
            size - phys
        } else {
            0
        };
        if n as u64 > there {
            n = there as usize;
        }
        if n == 0 {
            assert(seen + seq![] =~= seen);
            return Ok(total);
        }
        let v = match dev.read_at(phys, n) {
            Err(_) => {
                return Err(STATUS_END_OF_FILE);
            },
            Ok(v) => v,
        };
        put_bytes(dst, total, v.as_slice());
        proof {
            let rest = served(dev.bytes(), map@, at + n, left - n);
            if let Ok(b) = rest {
                assert(seen + (v@ + b) =~= (seen + v@) + b);
            }
            seen = seen + v@;
            assert(dst@ =~= splice(old(dst)@, 0, seen));
        }
        total += n;
    }
    assert(seen + seq![] =~= seen);
    Ok(total)
}

impl<D: ReadAt> ApfsDriver<D> {
    /// Look an object up on the volume.
    pub(crate) fn resolve(&self, path: &str) -> (r: Option<CachedStat>)
        ensures
            match r {
                Some(c) => self@.resolved(path@) == Some(c@),
                None => self.volume.dev.reliable() ==> self@.resolved(path@) is None,
            },
    {
        match self.volume.stat_and_extents(path) {
            Err(_) => None,
            Ok((stat, extent_map, file_size)) => Some(
                CachedStat { stat, extent_map, file_size, extents_resolved: true },
            ),
        }
    }

    /// The attributes of the object that a Windows path names.
    pub fn get_security_by_name(&mut self, file_name: &str) -> (r: Result<u32, u32>)
        requires
            old(self)@.wf(),
        ensures
            final(self)@.wf(),
            final(self).volume == old(self).volume,
            old(self).volume.dev.reliable() || r is Ok ==> (r, final(self)@) == old(self)@.security(
                file_name@,
            ),
            r matches Err(e) ==> {
                let path = slashed(file_name@);
                &&& e == STATUS_OBJECT_NAME_NOT_FOUND
                &&& path != "/"@ && path.len() > 0
                &&& recalled(old(self)@.cache, path) is None
                &&& final(self)@ == old(self)@.looked_up(path)
            },
    {
        let path = slash_path(file_name);
        if is_root(path.as_str()) {
            return Ok(FILE_ATTRIBUTE_DIRECTORY);
        }
        proof {
            law_driver_stays_well_formed(self@, path@, arbitrary());
        }
        if let Some(cached) = self.get_cached_stat(path.as_str()) {
            return Ok(entry_kind_to_attributes(cached.stat.kind, self.mode));
        }
        match self.resolve(path.as_str()) {
            None => Err(STATUS_OBJECT_NAME_NOT_FOUND),
            Some(c) => {
                proof {
                    law_driver_stays_well_formed(self@, path@, c@);
                }
                let a: u32 = entry_kind_to_attributes(c.stat.kind, self.mode);
                self.put_cached_stat(path, c);
                Ok(a)
            },
        }
    }

    pub(crate) fn open_as(&self, path: String, c: CachedStat) -> (r: (ApfsFileContext, FileInfo))
        ensures
            (r.0@, r.1) == self@.opened_as(path@, c@),
    {
        let info = fill_file_info(&c.stat, c.file_size, self.mode);
        (ApfsFileContext { path, extent_map: c.extent_map, file_size: c.file_size }, info)
    }

    /// Open the object that a Windows path names.
    pub fn open(&mut self, file_name: &str) -> (r: Result<(ApfsFileContext, FileInfo), u32>)
        requires
            old(self)@.wf(),
        ensures
            final(self)@.wf(),
            final(self).volume == old(self).volume,
            old(self).volume.dev.reliable() || r is Ok ==> (open_view(r), final(self)@)
                == old(self)@.open(file_name@),
            r matches Err(e) ==> {
                let path = slashed(file_name@);
                &&& e == STATUS_OBJECT_NAME_NOT_FOUND
                &&& recalled(old(self)@.cache, path) matches Some(c) ==> !c.extents_resolved
                    && c.stat.kind != EntryKind::Directory
                &&& final(self)@ == old(self)@.looked_up(path)
            },
    {
        let path = slash_path(file_name);
        proof {
            law_driver_stays_well_formed(self@, path@, arbitrary());
        }
        if let Some(c) = self.get_cached_stat(path.as_str()) {
            if c.extents_resolved || c.stat.kind == EntryKind::Directory {
                return Ok(self.open_as(path, c));
            }
        }
        match self.resolve(path.as_str()) {
            None => Err(STATUS_OBJECT_NAME_NOT_FOUND),
            Some(c) => {
                proof {
                    law_driver_stays_well_formed(self@, path@, c@);
                }
                let opened = self.open_as(path.clone(), c.clone());
                self.put_cached_stat(path, c);
                Ok(opened)
            },
        }
    }

    /// Read from an open file. No more than the file has from `offset` on is
    /// read.
    pub fn read(&self, context: &ApfsFileContext, buffer: &mut [u8], offset: u64) -> (r: Result<
        u32,
        u32,
    >)
        requires
            old(buffer).len() <= u32::MAX,
        ensures
            final(buffer)@.len() == old(buffer)@.len(),
            match r {
                Ok(n) => self@.read(context@, offset, old(buffer)@.len() as int) matches Ok(b)
                    && b.len() == n && final(buffer)@ == splice(old(buffer)@, 0, b),
                Err(e) => e == STATUS_END_OF_FILE && offset < context@.file_size && (
                self.volume.dev.reliable() ==> self@.read(
                    context@,
                    offset,
                    old(buffer)@.len() as int,
                ) == Err::<Seq<u8>, u32>(e)),
            },
    {
        if offset >= context.file_size {
            assert(buffer@ =~= splice(buffer@, 0, seq![]));
            return Ok(0);
        }
        let remaining: u64 = context.file_size - offset;
        let len: usize = buffer.len();
        let to_read: usize = if len as u64 <= remaining {
            len
        } else {
            remaining as usize
        };
        let n: usize = serve(
            &self.volume.dev,
            context.extent_map.as_slice(),
            offset,
            to_read,
            buffer,
        )?;
        Ok(n as u32)
    }

    /// What is told of an open file; `missing` is the status where nothing can
    /// be.
    pub(crate) fn info_or(&mut self, context: &ApfsFileContext, missing: u32) -> (r: Result<
        FileInfo,
        u32,
    >)
        requires
            old(self)@.wf(),
        ensures
            final(self)@.wf(),
            final(self).volume == old(self).volume,
            old(self).volume.dev.reliable() || r is Ok ==> (r, final(self)@) == old(self)@.info(
                context@,
                missing,
            ),
            r matches Err(e) ==> {
                &&& e == missing
                &&& recalled(old(self)@.cache, context@.path) is None
                &&& final(self)@ == old(self)@.looked_up(context@.path)
            },
    {
        proof {
            law_driver_stays_well_formed(self@, context.path@, arbitrary());
        }
        if let Some(cached) = self.get_cached_stat(context.path.as_str()) {
            return Ok(fill_file_info(&cached.stat, cached.file_size, self.mode));
        }
        match self.volume.stat(context.path.as_str()) {
            Err(_) => Err(missing),
            Ok(stat) => Ok(fill_file_info(&stat, stat.size, self.mode)),
        }
    }

    /// What is told of an open file.
    pub fn get_file_info(&mut self, context: &ApfsFileContext) -> (r: Result<FileInfo, u32>)
        requires
            old(self)@.wf(),
        ensures
            final(self)@.wf(),
            final(self).volume == old(self).volume,
            old(self).volume.dev.reliable() || r is Ok ==> (r, final(self)@) == old(self)@.info(
                context@,
                STATUS_OBJECT_NAME_NOT_FOUND,
            ),
            r matches Err(e) ==> {
                &&& e == STATUS_OBJECT_NAME_NOT_FOUND
                &&& recalled(old(self)@.cache, context@.path) is None
                &&& final(self)@ == old(self)@.looked_up(context@.path)
            },
    {
        self.info_or(context, STATUS_OBJECT_NAME_NOT_FOUND)
    }

    /// What is told of the volume: its sizes and its name.
    pub fn get_volume_info(&self) -> (i: &VolumeInfo)
        ensures
            i@ == self@.volume.info,
    {
        self.volume.volume_info()
    }

    fn meet(&mut self, parent: &str, e: &DirEntry)
        requires
            old(self)@.wf(),
        ensures
            final(self)@.wf(),
            final(self).volume == old(self).volume,
            final(self)@ == old(self)@.met(parent@, e@),
    {
        let path = if parent.unicode_len() == 0 {
            text_str("/", e.name.as_str(), "")
        } else {
            text_str(parent, "/", e.name.as_str())
        };
        if !cache_contains(&self.stat_cache, path.as_str()) {
            let c = CachedStat {
                stat: stat_of_entry(e),
                extent_map: Vec::new(),
                file_size: e.size,
                extents_resolved: false,
            };
            proof {
                law_driver_stays_well_formed(self@, path@, c@);
                assert(c@ =~= entry_cached(e@));
            }
            self.put_cached_stat(path, c);
        }
    }

    fn meet_all(&mut self, parent: &str, entries: &Vec<DirEntry>)
        requires
            old(self)@.wf(),
        ensures
            final(self)@.wf(),
            final(self).volume == old(self).volume,
            final(self)@ == old(self)@.met_all(parent@, entries_view(entries@), 0),
    {
        let ghost d = self@;
        let ghost vol = self.volume;
        let ghost all = entries_view(entries@);
        let mut i: usize = 0;
        while i < entries.len()
            invariant
                i <= entries.len(),
                all == entries_view(entries@),
                self@.wf(),
                self.volume == vol,
                d.met_all(parent@, all, 0) == self@.met_all(parent@, all, i as int),
            decreases entries.len() - i,
        {
            assert(all[i as int] == entries@[i as int]@);
            self.meet(parent, &entries[i]);
            i += 1;
        }
    }

    fn lines(&self, entries: &Vec<DirEntry>) -> (v: Vec<DirLine>)
        ensures
            lines_view(v@) == listing_lines(entries_view(entries@), self@.mode),
    {
        let mut v: Vec<DirLine> = Vec::new();
        v.push(dot_line("."));
        v.push(dot_line(".."));
        let ghost all = entries_view(entries@);
        let mut i: usize = 0;
        assert(lines_view(v@) =~= listing_lines(all.take(0), self.mode));
        while i < entries.len()
            invariant
                i <= entries.len(),
                all == entries_view(entries@),
                lines_view(v@) == listing_lines(all.take(i as int), self.mode),
            decreases entries.len() - i,
        {
            let e = &entries[i];
            let stat = stat_of_entry(e);
            let info = fill_file_info(&stat, e.size, self.mode);
            let ghost before = v@;
            v.push(DirLine { name: e.name.clone(), info });
            proof {
                assert(all[i as int] == e@);
                assert(lines_view(v@) =~= lines_view(before).push(v@.last()@));
                assert(lines_view(v@) =~= listing_lines(all.take(i + 1), self.mode));
            }
            i += 1;
        }
        assert(all.take(i as int) =~= all);
        v
    }

    /// The listing of an open directory. Metadata of its entries is noted, so
    /// that asking about them next needs no catalog lookup.
    pub fn read_directory(&mut self, context: &ApfsFileContext) -> (r: Result<Vec<DirLine>, u32>)
        requires
            old(self)@.wf(),
        ensures
            final(self)@.wf(),
            final(self).volume == old(self).volume,
            old(self).volume.dev.reliable() ==> (list_view(r), final(self)@) == old(self)@.list(
                context@,
            ),
            r matches Err(e) ==> e == STATUS_NOT_A_DIRECTORY && final(self)@ == old(self)@,
            r matches Ok(v) ==> exists|seen: Seq<DirEntryView>| #[trigger]
                old(self)@.listed(context@, seen, lines_view(v@), final(self)@),
    {
        let entries = match self.volume.list_directory(context.path.as_str()) {
            Err(_) => {
                return Err(STATUS_NOT_A_DIRECTORY);
            },
            Ok(e) => e,
        };
        let parent = if is_root(context.path.as_str()) {
            String::new()
        } else {
            context.path.clone()
        };
        let lines = self.lines(&entries);
        assert(parent@ =~= parent_prefix(context.path@));
        self.meet_all(parent.as_str(), &entries);
        assert(old(self)@.listed(
            context@,
            entries_view(entries@),
            lines_view(lines@),
            self@,
        ));
        Ok(lines)
    }
}

proof fn lemma_served(disk: Seq<u8>, map: Seq<(u64, u64, u64)>, pos: int, want: int)
    requires
        fork_read(disk, map, pos, want) is Ok,
    ensures
        served(disk, map, pos, want) == Ok::<Seq<u8>, u32>(fork_read(disk, map, pos, want)->Ok_0),
    decreases want,
{
    if want > 0 {
        let (_, run) = place_of(map, pos)->Some_0;
        let n = if run <= want {
            run as int
        } else {
            want
        };
        lemma_served(disk, map, pos + n, want - n);
    }
}

/// Reads of an open file give slices of it: through the extent map of a fork
/// that lies on the disk, `want` bytes at `pos` are the fork's bytes there.
pub proof fn law_reads_give_slices(
    disk: Seq<u8>,
    map: Seq<(u64, u64, u64)>,
    pos: int,
    want: int,
)
    requires
        sound_fork(map, disk.len()),
        0 <= pos,
        0 <= want,
        pos + want <= fork_end(map, 0),
    ensures
        served(disk, map, pos, want) == Ok::<Seq<u8>, u32>(
            fork(disk, map).subrange(pos, pos + want),
        ),
{
    law_fork_read_is_a_slice(disk, map, pos, want);
    lemma_served(disk, map, pos, want);
}

} // verus!
