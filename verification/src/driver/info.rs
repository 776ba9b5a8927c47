//! Statuses, attributes and file information as Windows takes them.

use crate::apfs::types::{EntryKind, FileStat};
use crate::utils::{apfs_time_to_filetime, filetime_of};
use vstd::prelude::*;

verus! {

pub const STATUS_END_OF_FILE: u32 = 0xC0000011;

pub const STATUS_NOT_A_DIRECTORY: u32 = 0xC0000103;

pub const STATUS_MEDIA_WRITE_PROTECTED: u32 = 0xC00000A2;

pub const STATUS_NOT_IMPLEMENTED: u32 = 0xC0000002;

pub const STATUS_IO_DEVICE_ERROR: u32 = 0xC0000185;

pub const STATUS_OBJECT_NAME_NOT_FOUND: u32 = 0xC0000034;

pub const FILE_ATTRIBUTE_READONLY: u32 = 0x1;

pub const FILE_ATTRIBUTE_DIRECTORY: u32 = 0x10;

pub const FILE_ATTRIBUTE_NORMAL: u32 = 0x80;

/// Read/write mode for a mount. `ReadOnly` is the default.
#[derive(Debug, Clone, Copy, PartialEq, Eq, Structural)]
pub enum ReadWriteMode {
    ReadOnly,
    /// Loopback / disk-image targets only. The caller must also set the
    /// `ARFW_I_UNDERSTAND_DATA_LOSS=1` environment variable.
    ReadWriteUnsafe,
}

/// What Windows is told of a file.
#[derive(Debug, Clone, Copy, PartialEq, Eq, Structural)]
pub struct FileInfo {
    pub file_attributes: u32,
    pub file_size: u64,
    pub allocation_size: u64,
    pub creation_time: u64,
    pub last_access_time: u64,
    pub last_write_time: u64,
    pub change_time: u64,
    pub index_number: u64,
}

/// The attributes of an entry. Only directories are told apart; files are
/// marked read-only where the mount is, and else are plain, so that programs
/// do not refuse to overwrite them.
pub open spec fn attributes(kind: EntryKind, mode: ReadWriteMode) -> u32 {
    if kind == EntryKind::Directory {
        FILE_ATTRIBUTE_DIRECTORY
    } else if mode == ReadWriteMode::ReadOnly {
        FILE_ATTRIBUTE_READONLY
    } else {
        FILE_ATTRIBUTE_NORMAL
    }
}

/// `size` rounded up to whole pages of 4096 bytes, or the largest such number
/// that 64 bits can say.
pub open spec fn allocation(size: u64) -> u64 {
    if size > u64::MAX - 4095 {
        (u64::MAX - 4095) as u64
    } else {
        ((size + 4095) / 4096 * 4096) as u64
    }
}

/// What Windows is told of an object.
pub open spec fn file_info(stat: FileStat, file_size: u64, mode: ReadWriteMode) -> FileInfo {
    FileInfo {
        file_attributes: attributes(stat.kind, mode),
        file_size,
        allocation_size: allocation(file_size),
        creation_time: filetime_of(stat.create_time) as u64,
        last_access_time: filetime_of(stat.modify_time) as u64,
        last_write_time: filetime_of(stat.modify_time) as u64,
        change_time: filetime_of(stat.modify_time) as u64,
        index_number: stat.oid,
    }
}

pub fn entry_kind_to_attributes(kind: EntryKind, mode: ReadWriteMode) -> (a: u32)
    ensures
        a == attributes(kind, mode),
{
    if kind == EntryKind::Directory {
        FILE_ATTRIBUTE_DIRECTORY
    } else if mode == ReadWriteMode::ReadOnly {
        FILE_ATTRIBUTE_READONLY
    } else {
        FILE_ATTRIBUTE_NORMAL
    }
}

fn allocation_size(size: u64) -> (a: u64)
    ensures
        a == allocation(size),
{
    if size > u64::MAX - 4095 {
        u64::MAX - 4095
    } else {
        (size + 4095) / 4096 * 4096
    }
}

pub fn fill_file_info(stat: &FileStat, file_size: u64, mode: ReadWriteMode) -> (i: FileInfo)
    ensures
        i == file_info(*stat, file_size, mode),
{
    let modified: u64 = apfs_time_to_filetime(stat.modify_time);
    FileInfo {
        file_attributes: entry_kind_to_attributes(stat.kind, mode),
        file_size,
        allocation_size: allocation_size(file_size),
        creation_time: apfs_time_to_filetime(stat.create_time),
        last_access_time: modified,
        last_write_time: modified,
        change_time: modified,
        index_number: stat.oid,
    }
}

/// The allocation is a whole number of pages that holds the file with less
/// than a page to spare.
pub proof fn law_allocation(size: u64)
    requires
        size <= u64::MAX - 4095,
    ensures
        allocation(size) % 4096 == 0,
        size <= allocation(size) < size + 4096,
{
}

/// A path with forward slashes.
pub open spec fn slashed(s: Seq<char>) -> Seq<char> {
    s.map_values(|c: char| if c == '\\' { '/' } else { c })
}

/// A Windows path with forward slashes, as volumes take it.
pub fn slash_path(s: &str) -> (p: String)
    ensures
        p@ == slashed(s@),
{
    let mut p = String::new();
    let n: usize = s.unicode_len();
    let mut i: usize = 0;
    assert(p@ =~= slashed(s@.take(0)));
    while i < n
        invariant
            i <= n,
            n == s@.len(),
            p@ == slashed(s@.take(i as int)),
        decreases n - i,
    {
        if s.get_char(i) == '\\' {
            proof {
                reveal_strlit("/");
            }
            p.append("/");
        } else {
            p.append(s.substring_char(i, i + 1));
        }
        assert(p@ =~= slashed(s@.take(i + 1)));
        i += 1;
    }
    assert(s@.take(n as int) =~= s@);
    p
}

} // verus!
