//! Reading from a mounted volume.

use crate::apfs::catalog::query;
use crate::apfs::catalog::query::{
    dir_list_view, directory_outcome, extents_lookup, lookup_extents, resolve_path, told,
    told_entry, told_outcome,
};
use crate::apfs::catalog::records::{
    inode_size, mode_kind, FileExtentVal, InodeVal, INODE_DIR_TYPE, INODE_SYMLINK_TYPE,
    ROOT_DIR_RECORD,
};
use crate::apfs::device::ReadAt;
use crate::apfs::error::{internal, outcome, plain, ApfsError, Fault};
use crate::apfs::extents::{build_extent_map, file_bytes, read_file_data, spans_of, ApfsForkReader};
use crate::apfs::object::{agrees, refused};
use crate::apfs::text::{msg_str, text_str};
use crate::apfs::types::{
    entries_view, walk_view, DirEntry, DirEntryView, EntryKind, FileStat, WalkEntry, WalkEntryView,
};
use crate::apfs::utf8::same_text;
use crate::apfs::volume::state::{ApfsVolume, VolumeView};
use vstd::prelude::*;

verus! {

/// What kind of object an inode describes.
pub open spec fn inode_kind(i: InodeVal) -> EntryKind {
    if mode_kind(i.mode) == INODE_DIR_TYPE {
        EntryKind::Directory
    } else if mode_kind(i.mode) == INODE_SYMLINK_TYPE {
        EntryKind::Symlink
    } else {
        EntryKind::File
    }
}

/// What an inode says of its object.
pub open spec fn stat_of(oid: u64, i: InodeVal) -> FileStat {
    FileStat {
        oid,
        kind: inode_kind(i),
        size: inode_size(i),
        create_time: i.create_time,
        modify_time: i.modify_time,
        uid: i.uid,
        gid: i.gid,
        mode: i.mode,
        nlink: i.nchildren_or_nlink as u32,
    }
}

/// What an inode says of its object.
pub fn inode_to_stat(oid: u64, inode: &InodeVal) -> (s: FileStat)
    ensures
        s == stat_of(oid, *inode),
{
    let k: u16 = inode.kind();
    let kind = if k == INODE_DIR_TYPE {
        EntryKind::Directory
    } else if k == INODE_SYMLINK_TYPE {
        EntryKind::Symlink
    } else {
        EntryKind::File
    };
    FileStat {
        oid,
        kind,
        size: inode.size(),
        create_time: inode.create_time,
        modify_time: inode.modify_time,
        uid: inode.uid,
        gid: inode.gid,
        mode: inode.mode,
        nlink: inode.nlink(),
    }
}

/// How deep directories are followed by [`ApfsVolume::walk`].
pub const WALK_DEPTH_LIMIT: u32 = 0x1_0000;

/// The path of an entry that a walk comes by.
pub open spec fn walked_path(parent: Seq<char>, name: Seq<char>) -> Seq<char> {
    if parent.len() == 0 {
        msg_str("/"@, name, ""@)
    } else {
        msg_str(parent, "/"@, name)
    }
}

impl VolumeView {
    /// The entries of the directory `oid`.
    pub open spec fn directory(self, oid: u64) -> Result<Seq<DirEntryView>, Fault> {
        directory_outcome(self.disk, self.catalog_root, self.omap_root, self.block_size, oid)
    }

    /// The directory that a path names.
    pub open spec fn directory_oid(self, path: Seq<char>) -> Result<u64, Fault> {
        if path == "/"@ || path.len() == 0 {
            Ok(ROOT_DIR_RECORD)
        } else {
            match self.resolve(path) {
                Err(e) => Err(e),
                Ok((oid, inode)) => if mode_kind(inode.mode) != INODE_DIR_TYPE {
                    Err(Fault::NotADirectory(path))
                } else {
                    Ok(oid)
                },
            }
        }
    }

    /// The entries of the directory that a path names.
    pub open spec fn listing(self, path: Seq<char>) -> Result<Seq<DirEntryView>, Fault> {
        match self.directory_oid(path) {
            Err(e) => Err(e),
            Ok(oid) => self.directory(oid),
        }
    }

    /// The extents of the file with this private id.
    pub open spec fn extents(self, private_id: u64) -> Result<Seq<FileExtentVal>, Fault> {
        extents_lookup(
            self.disk,
            self.catalog_root,
            self.omap_root,
            self.block_size,
            private_id,
        )
    }

    /// Inode and extents of the object that a path names.
    pub open spec fn opened(self, path: Seq<char>) -> Result<
        (u64, InodeVal, Seq<FileExtentVal>),
        Fault,
    > {
        match self.resolve(path) {
            Err(e) => Err(e),
            Ok((oid, inode)) => match self.extents(inode.private_id) {
                Err(e) => Err(e),
                Ok(exts) => Ok((oid, inode, exts)),
            },
        }
    }

    /// The bytes of the file that a path names.
    pub open spec fn contents(self, path: Seq<char>) -> Result<Seq<u8>, Fault> {
        match self.opened(path) {
            Err(e) => Err(e),
            Ok((_, inode, exts)) => file_bytes(
                self.disk,
                self.block_size,
                exts,
                inode_size(inode),
            ),
        }
    }

    /// What is said of the object that a path names.
    pub open spec fn stat(self, path: Seq<char>) -> Result<FileStat, Fault> {
        match self.resolve(path) {
            Err(e) => Err(e),
            Ok((oid, inode)) => Ok(stat_of(oid, inode)),
        }
    }

    /// Whether a path names an object.
    pub open spec fn presence(self, path: Seq<char>) -> Result<bool, Fault> {
        match self.resolve(path) {
            Ok(_) => Ok(true),
            Err(Fault::NotFound(_)) => Ok(false),
            Err(e) => Err(e),
        }
    }

    /// Everything under the entries of a directory from `i` on: each entry,
    /// followed by what is under it.
    pub open spec fn walk_entries(
        self,
        entries: Seq<DirEntryView>,
        i: int,
        parent: Seq<char>,
        levels: u32,
    ) -> Result<Seq<WalkEntryView>, Fault>
        decreases levels, entries.len() - i,
    {
        if i >= entries.len() || i < 0 {
            Ok(seq![])
        } else {
            let path = walked_path(parent, entries[i].name);
            let here = seq![WalkEntryView { path, entry: entries[i] }];
            match self.walk_under(entries[i], path, levels) {
                Err(e) => Err(e),
                Ok(below) => match self.walk_entries(entries, i + 1, parent, levels) {
                    Err(e) => Err(e),
                    Ok(rest) => Ok(here + below + rest),
                },
            }
        }
    }

    /// Everything under an entry.
    pub open spec fn walk_under(self, entry: DirEntryView, path: Seq<char>, levels: u32) -> Result<
        Seq<WalkEntryView>,
        Fault,
    >
        decreases levels, 0int,
    {
        if entry.kind != EntryKind::Directory {
            Ok(seq![])
        } else if levels == 0 {
            Err(Fault::Internal("walk: directories nest too deep"@))
        } else {
            match self.directory(entry.oid) {
                Err(e) => Err(e),
                Ok(entries) => self.walk_entries(entries, 0, path, (levels - 1) as u32),
            }
        }
    }

    /// Everything on the volume.
    pub open spec fn walk(self) -> Result<Seq<WalkEntryView>, Fault> {
        match self.directory(ROOT_DIR_RECORD) {
            Err(e) => Err(e),
            Ok(entries) => self.walk_entries(entries, 0, seq![], WALK_DEPTH_LIMIT),
        }
    }
}

/// The outcome of opening a file for reading.
pub open spec fn fork_outcome(
    r: Result<(u64, InodeVal, Seq<FileExtentVal>), Fault>,
    block_size: u32,
) -> Result<(Seq<(u64, u64, u64)>, u64), Fault> {
    match r {
        Err(e) => Err(e),
        Ok((_, inode, exts)) => Ok((spans_of(exts, block_size), inode_size(inode))),
    }
}

/// A fork reader, taken by what it reads: extent map and size.
pub open spec fn fork_view<D: ReadAt>(r: Result<ApfsForkReader<D>, ApfsError>) -> Result<
    (Seq<(u64, u64, u64)>, u64),
    Fault,
> {
    match r {
        Err(e) => Err(e@),
        Ok(f) => Ok((f.extent_map@, f.logical_size)),
    }
}

/// An extent map with a size, taken by view.
pub open spec fn map_view(r: Result<(Vec<(u64, u64, u64)>, u64), ApfsError>) -> Result<
    (Seq<(u64, u64, u64)>, u64),
    Fault,
> {
    match r {
        Err(e) => Err(e@),
        Ok((m, n)) => Ok((m@, n)),
    }
}

/// The outcome of asking for what is said of an object together with its
/// extent map. Directories have none.
pub open spec fn stat_and_map(v: VolumeView, path: Seq<char>) -> Result<
    (FileStat, Seq<(u64, u64, u64)>, u64),
    Fault,
> {
    match v.resolve(path) {
        Err(e) => Err(e),
        Ok((oid, inode)) => if inode_kind(inode) == EntryKind::Directory {
            Ok((stat_of(oid, inode), seq![], 0))
        } else {
            match v.extents(inode.private_id) {
                Err(e) => Err(e),
                Ok(exts) => Ok(
                    (stat_of(oid, inode), spans_of(exts, v.block_size), inode_size(inode)),
                ),
            }
        },
    }
}

/// A status with an extent map and a size, taken by view.
pub open spec fn stat_map_view(
    r: Result<(FileStat, Vec<(u64, u64, u64)>, u64), ApfsError>,
) -> Result<(FileStat, Seq<(u64, u64, u64)>, u64), Fault> {
    match r {
        Err(e) => Err(e@),
        Ok((s, m, n)) => Ok((s, m@, n)),
    }
}

/// Inode and extents, taken by view.
pub open spec fn opened_view(
    r: Result<(u64, InodeVal, Vec<FileExtentVal>), ApfsError>,
) -> Result<(u64, InodeVal, Seq<FileExtentVal>), Fault> {
    match r {
        Err(e) => Err(e@),
        Ok((o, i, x)) => Ok((o, i, x@)),
    }
}

impl<D: ReadAt> ApfsVolume<D> {
    /// Walk a path from the root and return `(oid, inode)`.
    pub(crate) fn resolve(&self, path: &str) -> (r: Result<(u64, InodeVal), ApfsError>)
        ensures
            agrees(plain(r), self@.resolve(path@), self.dev.reliable()),
    {
        resolve_path(
            &self.dev,
            self.catalog_root_block,
            self.vol_omap_root_block,
            self.block_size,
            path,
        )
    }

    pub(crate) fn extents_of(&self, private_id: u64) -> (r: Result<Vec<FileExtentVal>, ApfsError>)
        ensures
            agrees(outcome(r), self@.extents(private_id), self.dev.reliable()),
    {
        lookup_extents(
            &self.dev,
            self.catalog_root_block,
            self.vol_omap_root_block,
            self.block_size,
            private_id,
        )
    }

    fn lookup_file(&self, path: &str) -> (r: Result<
        (u64, InodeVal, Vec<FileExtentVal>),
        ApfsError,
    >)
        ensures
            agrees(opened_view(r), self@.opened(path@), self.dev.reliable()),
    {
        let (oid, inode) = self.resolve(path)?;
        let exts = self.extents_of(inode.private_id)?;
        Ok((oid, inode, exts))
    }

    fn find_directory(&self, path: &str) -> (r: Result<u64, ApfsError>)
        ensures
            agrees(plain(r), self@.directory_oid(path@), self.dev.reliable()),
    {
        if same_text(path, "/") || path.unicode_len() == 0 {
            return Ok(ROOT_DIR_RECORD);
        }
        let (oid, inode) = self.resolve(path)?;
        if inode.kind() != INODE_DIR_TYPE {
            return Err(ApfsError::NotADirectory(path.to_string()));
        }
        Ok(oid)
    }

    /// The entries of the directory at `path`. An inode that cannot be had
    /// leaves size and times of its entry 0.
    pub fn list_directory(&self, path: &str) -> (r: Result<Vec<DirEntry>, ApfsError>)
        ensures
            self.dev.reliable() ==> dir_list_view(r) == self@.listing(path@),
            told_outcome(dir_list_view(r), self@.listing(path@)) || (!self.dev.reliable()
                && refused(dir_list_view(r))),
    {
        let parent: u64 = self.find_directory(path)?;
        query::list_directory(
            &self.dev,
            self.catalog_root_block,
            self.vol_omap_root_block,
            self.block_size,
            parent,
        )
    }

    /// The contents of the file at `path`.
    pub fn read_file(&self, path: &str) -> (r: Result<Vec<u8>, ApfsError>)
        requires
            self@.wf(),
        ensures
            agrees(outcome(r), self@.contents(path@), self.dev.reliable()),
    {
        let mut buf: Vec<u8> = Vec::new();
        self.read_file_to(path, &mut buf)?;
        assert(buf@.skip(0) =~= buf@);
        Ok(buf)
    }

    /// Append the contents of the file at `path` to `out`, and return how many
    /// bytes they are.
    pub fn read_file_to(&self, path: &str, out: &mut Vec<u8>) -> (r: Result<u64, ApfsError>)
        requires
            self@.wf(),
        ensures
            old(out)@.is_prefix_of(final(out)@),
            match r {
                Ok(n) => self@.contents(path@) == Ok::<Seq<u8>, Fault>(
                    final(out)@.skip(old(out)@.len() as int),
                ) && n == final(out)@.len() - old(out)@.len(),
                Err(e) => agrees(
                    Err::<Seq<u8>, Fault>(e@),
                    self@.contents(path@),
                    self.dev.reliable(),
                ),
            },
    {
        let (_, inode, exts) = self.lookup_file(path)?;
        read_file_data(&self.dev, self.block_size, exts.as_slice(), inode.size(), out)
    }

    /// What is said of the object at `path`, with the extent map and the size
    /// of a file.
    pub fn stat_and_extents(&self, path: &str) -> (r: Result<
        (FileStat, Vec<(u64, u64, u64)>, u64),
        ApfsError,
    >)
        ensures
            agrees(stat_map_view(r), stat_and_map(self@, path@), self.dev.reliable()),
    {
        let (oid, inode) = self.resolve(path)?;
        let stat = inode_to_stat(oid, &inode);
        if stat.kind == EntryKind::Directory {
            return Ok((stat, Vec::new(), 0));
        }
        let exts = self.extents_of(inode.private_id)?;
        let map = build_extent_map(self.block_size, exts.as_slice());
        Ok((stat, map, inode.size()))
    }

    /// Extent map and size of the file at `path`.
    pub fn get_file_extents(&self, path: &str) -> (r: Result<
        (Vec<(u64, u64, u64)>, u64),
        ApfsError,
    >)
        ensures
            agrees(
                map_view(r),
                fork_outcome(self@.opened(path@), self@.block_size),
                self.dev.reliable(),
            ),
    {
        let (_, inode, exts) = self.lookup_file(path)?;
        Ok((build_extent_map(self.block_size, exts.as_slice()), inode.size()))
    }

    /// A reader over the file at `path`, positioned at its start.
    pub fn open_file<'a>(&'a self, path: &str) -> (r: Result<ApfsForkReader<'a, D>, ApfsError>)
        ensures
            agrees(
                fork_view(r),
                fork_outcome(self@.opened(path@), self@.block_size),
                self.dev.reliable(),
            ),
            r matches Ok(f) ==> *f.dev == self.dev && f.position == 0,
    {
        let (_, inode, exts) = self.lookup_file(path)?;
        let size: u64 = inode.size();
        Ok(ApfsForkReader::new(&self.dev, self.block_size, exts, size))
    }

    /// What is said of the object at `path`.
    pub fn stat(&self, path: &str) -> (r: Result<FileStat, ApfsError>)
        ensures
            agrees(plain(r), self@.stat(path@), self.dev.reliable()),
    {
        let (oid, inode) = self.resolve(path)?;
        Ok(inode_to_stat(oid, &inode))
    }

    /// Whether `path` names an object.
    pub fn path_exists(&self, path: &str) -> (r: Result<bool, ApfsError>)
        ensures
            agrees(plain(r), self@.presence(path@), self.dev.reliable()),
    {
        match self.resolve(path) {
            Ok(_) => Ok(true),
            Err(ApfsError::NotFound(_)) => Ok(false),
            Err(e) => Err(e),
        }
    }

    /// Everything on the volume: each entry, followed by what is under it.
    pub fn walk(&self) -> (r: Result<Vec<WalkEntry>, ApfsError>)
        ensures
            self.dev.reliable() ==> walk_outcome(r) == self@.walk(),
            told_walk_outcome(walk_outcome(r), self@.walk()) || (!self.dev.reliable() && refused(
                walk_outcome(r),
            )),
    {
        let mut entries: Vec<WalkEntry> = Vec::new();
        proof {
            reveal_strlit("");
            assert(""@ =~= Seq::<char>::empty());
        }
        self.walk_recursive(ROOT_DIR_RECORD, "", WALK_DEPTH_LIMIT, &mut entries)?;
        proof {
            let all = self@.walk()->Ok_0;
            let none = Seq::<WalkEntryView>::empty();
            assert(walk_view(Seq::<WalkEntry>::empty()) =~= none);
            assert(none + all =~= all);
        }
        Ok(entries)
    }

    /// Add an entry, followed by what is under it.
    fn walk_entry(
        &self,
        entry: &DirEntry,
        parent_path: &str,
        levels: u32,
        entries: &mut Vec<WalkEntry>,
    ) -> (r: Result<(), ApfsError>)
        ensures
            self.dev.reliable() ==> ({
                let path = walked_path(parent_path@, entry@.name);
                let called_for = self@.walk_under(entry@, path, levels);
                match r {
                    Ok(_) => called_for matches Ok(below) && walk_view(final(entries)@)
                        == walk_view(old(entries)@) + seq![
                        (WalkEntryView { path, entry: entry@ }),
                    ] + below,
                    Err(e) => called_for == Err::<Seq<WalkEntryView>, Fault>(e@),
                }
            }),
            ({
                let path = walked_path(parent_path@, entry@.name);
                let called_for = self@.walk_under(entry@, path, levels);
                match r {
                    Ok(_) => called_for matches Ok(below) && told_walk(
                        walk_view(final(entries)@),
                        walk_view(old(entries)@) + seq![
                            (WalkEntryView { path, entry: entry@ }),
                        ] + below,
                    ),
                    Err(e) => agrees(Err(e@), called_for, self.dev.reliable()),
                }
            }),
        decreases levels, 0int,
    {
        let path = if parent_path.unicode_len() == 0 {
            text_str("/", entry.name.as_str(), "")
        } else {
            text_str(parent_path, "/", entry.name.as_str())
        };
        let is_dir = entry.kind == EntryKind::Directory;
        let oid: u64 = entry.oid;
        let ghost before = walk_view(entries@);
        let ghost here = WalkEntryView { path: path@, entry: entry@ };
        entries.push(WalkEntry { path: path.clone(), entry: entry.clone() });
        assert(walk_view(entries@) =~= before + seq![here]);
        if is_dir {
            if levels == 0 {
                return Err(internal("walk: directories nest too deep"));
            }
            self.walk_recursive(oid, path.as_str(), levels - 1, entries)?;
        } else {
            assert(before + seq![here] + Seq::<WalkEntryView>::empty() =~= before + seq![here]);
        }
        Ok(())
    }

    fn walk_recursive(
        &self,
        parent_oid: u64,
        parent_path: &str,
        levels: u32,
        entries: &mut Vec<WalkEntry>,
    ) -> (r: Result<(), ApfsError>)
        ensures
            self.dev.reliable() ==> ({
                let called_for = match self@.directory(parent_oid) {
                    Err(e) => Err(e),
                    Ok(list) => self@.walk_entries(list, 0, parent_path@, levels),
                };
                match r {
                    Ok(_) => called_for matches Ok(more) && walk_view(final(entries)@)
                        == walk_view(old(entries)@) + more,
                    Err(e) => called_for == Err::<Seq<WalkEntryView>, Fault>(e@),
                }
            }),
            ({
                let called_for = match self@.directory(parent_oid) {
                    Err(e) => Err(e),
                    Ok(list) => self@.walk_entries(list, 0, parent_path@, levels),
                };
                match r {
                    Ok(_) => called_for matches Ok(more) && told_walk(
                        walk_view(final(entries)@),
                        walk_view(old(entries)@) + more,
                    ),
                    Err(e) => agrees(Err(e@), called_for, self.dev.reliable()),
                }
            }),
        decreases levels, 1int,
    {
        let list = query::list_directory(
            &self.dev,
            self.catalog_root_block,
            self.vol_omap_root_block,
            self.block_size,
            parent_oid,
        )?;
        let ghost views = entries_view(list@);
        let ghost there = self@.directory(parent_oid)->Ok_0;
        let ghost goal = self@.walk_entries(there, 0, parent_path@, levels);
        let ghost start = walk_view(entries@);
        let mut i: usize = 0;
        while i < list.len()
            invariant
                i <= list.len(),
                views == entries_view(list@),
                start == walk_view(old(entries)@),
                self@.directory(parent_oid) == Ok::<Seq<DirEntryView>, Fault>(there),
                told(views, there),
                self.dev.reliable() ==> views == there,
                goal == self@.walk_entries(there, 0, parent_path@, levels),
                told_walk_outcome(
                    walk_after(
                        walk_view(entries@),
                        self@.walk_entries(there, i as int, parent_path@, levels),
                    ),
                    walk_after(start, goal),
                ),
                self.dev.reliable() ==> walk_after(start, goal) == walk_after(
                    walk_view(entries@),
                    self@.walk_entries(there, i as int, parent_path@, levels),
                ),
            decreases list.len() - i,
        {
            let ghost before = walk_view(entries@);
            assert(views[i as int] == list[i as int]@);
            assert(told_entry(views[i as int], there[i as int]));
            proof {
                let path = walked_path(parent_path@, there[i as int].name);
                assert(self@.walk_under(views[i as int], path, levels) == self@.walk_under(
                    there[i as int],
                    path,
                    levels,
                ));
            }
            self.walk_entry(&list[i], parent_path, levels, entries)?;
            proof {
                lemma_told_step(
                    self@,
                    views[i as int],
                    there,
                    i as int,
                    parent_path@,
                    levels,
                    before,
                    walk_view(entries@),
                    walk_after(start, goal),
                );
                if self.dev.reliable() {
                    lemma_walk_step(
                        self@,
                        there,
                        i as int,
                        parent_path@,
                        levels,
                        before,
                        walk_view(entries@),
                    );
                }
            }
            i += 1;
        }
        assert(walk_view(entries@) + Seq::<WalkEntryView>::empty() =~= walk_view(entries@));
        Ok(())
    }
}

/// What is walked with one entry more.
proof fn lemma_walk_step(
    v: VolumeView,
    entries: Seq<DirEntryView>,
    i: int,
    parent: Seq<char>,
    levels: u32,
    before: Seq<WalkEntryView>,
    now: Seq<WalkEntryView>,
)
    requires
        0 <= i < entries.len(),
        ({
            let path = walked_path(parent, entries[i].name);
            v.walk_under(entries[i], path, levels) matches Ok(below) && now == before + seq![
                (WalkEntryView { path, entry: entries[i] }),
            ] + below
        }),
    ensures
        walk_after(before, v.walk_entries(entries, i, parent, levels)) == walk_after(
            now,
            v.walk_entries(entries, i + 1, parent, levels),
        ),
{
    let path = walked_path(parent, entries[i].name);
    let here = seq![WalkEntryView { path, entry: entries[i] }];
    let below = v.walk_under(entries[i], path, levels)->Ok_0;
    if let Ok(rest) = v.walk_entries(entries, i + 1, parent, levels) {
        assert(before + (here + below + rest) =~= now + rest);
    }
}

/// What is told of a walk with one entry more.
proof fn lemma_told_step(
    v: VolumeView,
    seen: DirEntryView,
    entries: Seq<DirEntryView>,
    i: int,
    parent: Seq<char>,
    levels: u32,
    before: Seq<WalkEntryView>,
    now: Seq<WalkEntryView>,
    target: Result<Seq<WalkEntryView>, Fault>,
)
    requires
        0 <= i < entries.len(),
        told_entry(seen, entries[i]),
        ({
            let path = walked_path(parent, entries[i].name);
            v.walk_under(entries[i], path, levels) matches Ok(below) && told_walk(
                now,
                before + seq![(WalkEntryView { path, entry: seen })] + below,
            )
        }),
        told_walk_outcome(walk_after(before, v.walk_entries(entries, i, parent, levels)), target),
    ensures
        told_walk_outcome(walk_after(now, v.walk_entries(entries, i + 1, parent, levels)), target),
{
    let path = walked_path(parent, entries[i].name);
    let here = seq![WalkEntryView { path, entry: entries[i] }];
    let below = v.walk_under(entries[i], path, levels)->Ok_0;
    if let Ok(rest) = v.walk_entries(entries, i + 1, parent, levels) {
        let x = now + rest;
        let y = before + (here + below + rest);
        let w = before + seq![WalkEntryView { path, entry: seen }] + below;
        let all = target->Ok_0;
        assert forall|k: int| 0 <= k < x.len() implies told_walked(#[trigger] x[k], all[k]) by {
            assert(told_walked(y[k], all[k]));
            if k < now.len() {
                assert(told_walked(now[k], w[k]));
                if k != before.len() {
                    assert(w[k] == y[k]);
                }
            } else {
                assert(x[k] == y[k]);
            }
        }
    }
}

/// Whether an entry of a walk is another one, perhaps without what comes from
/// its inode.
pub open spec fn told_walked(x: WalkEntryView, u: WalkEntryView) -> bool {
    x.path == u.path && told_entry(x.entry, u.entry)
}

/// Whether a walk is another one, perhaps without what comes from some of the
/// inodes.
pub open spec fn told_walk(s: Seq<WalkEntryView>, u: Seq<WalkEntryView>) -> bool {
    &&& s.len() == u.len()
    &&& forall|i: int| 0 <= i < s.len() ==> told_walked(#[trigger] s[i], u[i])
}

/// Whether a walk is the one that is called for, but that inodes which could not
/// be had may have left size and times 0.
pub open spec fn told_walk_outcome(
    r: Result<Seq<WalkEntryView>, Fault>,
    called_for: Result<Seq<WalkEntryView>, Fault>,
) -> bool {
    match (r, called_for) {
        (Ok(s), Ok(u)) => told_walk(s, u),
        (Err(e), Err(f)) => e == f,
        _ => false,
    }
}

/// Walked entries in front of what the rest gives.
pub open spec fn walk_after(
    seen: Seq<WalkEntryView>,
    rest: Result<Seq<WalkEntryView>, Fault>,
) -> Result<Seq<WalkEntryView>, Fault> {
    match rest {
        Err(e) => Err(e),
        Ok(more) => Ok(seen + more),
    }
}

/// The outcome of a walk, taken by view.
pub open spec fn walk_outcome(r: Result<Vec<WalkEntry>, ApfsError>) -> Result<
    Seq<WalkEntryView>,
    Fault,
> {
    match r {
        Err(e) => Err(e@),
        Ok(v) => Ok(walk_view(v@)),
    }
}

} // verus!
