//! What the volume operations hand out.

use vstd::prelude::*;

verus! {

#[derive(Debug, Clone, Copy, PartialEq, Eq, Structural)]
pub enum EntryKind {
    File,
    Directory,
    Symlink,
}

#[derive(Debug)]
pub struct DirEntry {
    pub name: String,
    pub oid: u64,
    pub kind: EntryKind,
    pub size: u64,
    pub create_time: i64,
    pub modify_time: i64,
}

/// The contents of a [`DirEntry`].
#[verifier::ext_equal]
pub struct DirEntryView {
    pub name: Seq<char>,
    pub oid: u64,
    pub kind: EntryKind,
    pub size: u64,
    pub create_time: i64,
    pub modify_time: i64,
}

impl View for DirEntry {
    type V = DirEntryView;

    open spec fn view(&self) -> DirEntryView {
        DirEntryView {
            name: self.name@,
            oid: self.oid,
            kind: self.kind,
            size: self.size,
            create_time: self.create_time,
            modify_time: self.modify_time,
        }
    }
}

impl Clone for DirEntry {
    fn clone(&self) -> (r: Self)
        ensures
            r@ == self@,
    {
        DirEntry {
            name: self.name.clone(),
            oid: self.oid,
            kind: self.kind,
            size: self.size,
            create_time: self.create_time,
            modify_time: self.modify_time,
        }
    }
}

/// Entries, taken by view.
pub open spec fn entries_view(s: Seq<DirEntry>) -> Seq<DirEntryView> {
    s.map_values(|x: DirEntry| x@)
}

#[derive(Debug, Clone, Copy)]
pub struct FileStat {
    pub oid: u64,
    pub kind: EntryKind,
    pub size: u64,
    pub create_time: i64,
    pub modify_time: i64,
    pub uid: u32,
    pub gid: u32,
    pub mode: u16,
    pub nlink: u32,
}

#[derive(Debug)]
pub struct WalkEntry {
    pub path: String,
    pub entry: DirEntry,
}

/// The contents of a [`WalkEntry`].
#[verifier::ext_equal]
pub struct WalkEntryView {
    pub path: Seq<char>,
    pub entry: DirEntryView,
}

impl View for WalkEntry {
    type V = WalkEntryView;

    open spec fn view(&self) -> WalkEntryView {
        WalkEntryView { path: self.path@, entry: self.entry@ }
    }
}

impl Clone for WalkEntry {
    fn clone(&self) -> (r: Self)
        ensures
            r@ == self@,
    {
        WalkEntry {
            path: self.path.clone(),
            entry: self.entry.clone(),
        }
    }
}

/// Walked entries, taken by view.
pub open spec fn walk_view(s: Seq<WalkEntry>) -> Seq<WalkEntryView> {
    s.map_values(|x: WalkEntry| x@)
}

#[derive(Debug)]
pub struct VolumeInfo {
    pub name: String,
    pub block_size: u32,
    pub total_bytes: u64,
    pub free_bytes: u64,
    pub used_bytes: u64,
    pub num_files: u64,
    pub num_directories: u64,
    pub num_symlinks: u64,
}

/// The contents of a [`VolumeInfo`].
#[verifier::ext_equal]
pub struct VolumeInfoView {
    pub name: Seq<char>,
    pub block_size: u32,
    pub total_bytes: u64,
    pub free_bytes: u64,
    pub used_bytes: u64,
    pub num_files: u64,
    pub num_directories: u64,
    pub num_symlinks: u64,
}

impl View for VolumeInfo {
    type V = VolumeInfoView;

    open spec fn view(&self) -> VolumeInfoView {
        VolumeInfoView {
            name: self.name@,
            block_size: self.block_size,
            total_bytes: self.total_bytes,
            free_bytes: self.free_bytes,
            used_bytes: self.used_bytes,
            num_files: self.num_files,
            num_directories: self.num_directories,
            num_symlinks: self.num_symlinks,
        }
    }
}

impl Clone for VolumeInfo {
    fn clone(&self) -> (r: Self)
        ensures
            r@ == self@,
    {
        VolumeInfo {
            name: self.name.clone(),
            block_size: self.block_size,
            total_bytes: self.total_bytes,
            free_bytes: self.free_bytes,
            used_bytes: self.used_bytes,
            num_files: self.num_files,
            num_directories: self.num_directories,
            num_symlinks: self.num_symlinks,
        }
    }
}

} // verus!
