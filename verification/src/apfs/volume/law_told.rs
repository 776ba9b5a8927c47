//! What is told of objects and volumes, and which changes are refused.

use crate::apfs::catalog::records::{InodeVal, INODE_DIR_TYPE, INODE_FILE_TYPE, J_TYPE_XATTR};
use crate::apfs::error::Fault;
use crate::apfs::extents::fork_prefix;
use crate::apfs::layouts::law_mode_tells_kind;
use crate::apfs::path::{parent_part, parent_path, trimmed};
use crate::apfs::superblock::NxView;
use crate::apfs::types::{EntryKind, FileStat};
use crate::apfs::volume::create::{new_drec, new_inode};
use crate::apfs::volume::law_remove::{
    can_remove, law_remove_directory_is_shown, law_unlink_is_shown,
};
use crate::apfs::volume::law_rename::{can_rename, law_rename_is_shown};
use crate::apfs::volume::read::{fork_outcome, stat_and_map};
use crate::apfs::volume::rename::drec_type;
use crate::apfs::volume::state::{mount_at, volume_superblock, VolumeView};
use crate::apfs::volume::tree::Tree;
use vstd::prelude::*;

verus! {

/// What is told of an object is what its inode says: its times, its owner, its
/// mode, and the number of its names or entries. The size is that of its data
/// stream, or the one that the inode has itself.
pub proof fn law_stat_shows_inode(v: VolumeView, path: Seq<char>)
    ensures
        v.resolve(path) is Err <==> v.stat(path) is Err,
        v.resolve(path) matches Ok((oid, i)) ==> (v.stat(path) matches Ok(s) && {
            &&& s.oid == oid
            &&& s.create_time == i.create_time
            &&& s.modify_time == i.modify_time
            &&& s.uid == i.uid
            &&& s.gid == i.gid
            &&& s.mode == i.mode
            &&& 0 <= i.nchildren_or_nlink ==> s.nlink == i.nchildren_or_nlink
            &&& i.dstream_size matches Some(n) ==> s.size == n
            &&& i.dstream_size is None ==> s.size == i.uncompressed_size
            &&& s.kind == EntryKind::Directory <==> i.mode / 0x1000 == 4
            &&& s.kind == EntryKind::Symlink <==> i.mode / 0x1000 == 10
        }),
{
    if let Ok((_, i)) = v.resolve(path) {
        law_mode_tells_kind(i);
    }
}

/// A path is there if it leads to an object, and it is not if a name on it is
/// not found.
pub proof fn law_presence(v: VolumeView, path: Seq<char>)
    ensures
        v.presence(path) == Ok::<bool, Fault>(true) <==> v.stat(path) is Ok,
        v.presence(path) == Ok::<bool, Fault>(false) <==> (v.stat(path) matches Err(
            Fault::NotFound(_),
        )),
{
}

/// A new object is of the time at which it was made in every respect, belongs
/// to the first user and group, and is in the directory in which it was made. A
/// directory may be entered by all, and a file may be read by all; only the
/// owner may change either. Its entry says the same.
pub proof fn law_new_objects(parent: u64, oid: u64, is_dir: bool, now: i64)
    ensures
        ({
            let i = new_inode(parent, oid, is_dir, now);
            let d = new_drec(oid, is_dir, now);
            &&& i.parent_id == parent
            &&& i.private_id == oid
            &&& i.create_time == now && i.modify_time == now
            &&& i.change_time == now && i.access_time == now
            &&& i.uid == 0 && i.gid == 0
            &&& i.internal_flags == 0 && i.bsd_flags == 0 && i.default_protection_class == 0
            &&& i.write_generation_counter == 1
            &&& i.uncompressed_size == 0 && i.dstream_size is None
            &&& is_dir ==> i.mode == 0o040755 && i.nchildren_or_nlink == 0
            &&& !is_dir ==> i.mode == 0o100644 && i.nchildren_or_nlink == 1
            &&& d.file_id == oid
            &&& d.date_added == now
            &&& is_dir ==> d.flags == 4
            &&& !is_dir ==> d.flags == 8
        }),
{
    assert((INODE_DIR_TYPE | 0o755) == 0o040755) by (bit_vector);
    assert((INODE_FILE_TYPE | 0o644) == 0o100644) by (bit_vector);
}

/// The entry of an object that is renamed tells the kind of the object: 4 for a
/// directory, 10 for a symbolic link, and 8 for anything else.
pub proof fn law_renamed_entries(i: InodeVal)
    ensures
        i.mode / 0x1000 == 4 ==> drec_type(i) == 4,
        i.mode / 0x1000 == 10 ==> drec_type(i) == 10,
        i.mode / 0x1000 != 4 && i.mode / 0x1000 != 10 ==> drec_type(i) == 8,
{
    law_mode_tells_kind(i);
}

/// A file that is unlinked and a directory that is removed are counted off in
/// the directory they were in, and nothing else of it changes.
pub proof fn law_removed_entries_are_counted_off(
    v: VolumeView,
    t: Tree,
    m: Set<u64>,
    path: Seq<char>,
    parent: Seq<char>,
    is_dir: bool,
)
    requires
        v.sound(t, m),
        ({
            let (r, w) = if is_dir {
                v.remove_directory(path)
            } else {
                v.unlink(path)
            };
            r is Ok
        }),
        v.resolve(path) matches Ok((oid, i)) && can_remove(t, path, i.parent_id) && (v.resolve(
            parent,
        ) matches Ok((p, was)) && p == i.parent_id && p != oid && was.nchildren_or_nlink > 0),
    ensures
        ({
            let w = if is_dir {
                v.remove_directory(path).1
            } else {
                v.unlink(path).1
            };
            let (p, was) = v.resolve(parent)->Ok_0;
            w.resolve(parent) == Ok::<(u64, InodeVal), Fault>(
                (
                    p,
                    InodeVal {
                        nchildren_or_nlink: (was.nchildren_or_nlink - 1) as i32,
                        ..was
                    },
                ),
            )
        }),
{
    if is_dir {
        let u = law_remove_directory_is_shown(v, t, m, path);
    } else {
        let u = law_unlink_is_shown(v, t, m, path);
    }
}

/// An object that is moved to another directory knows that directory as its
/// parent and was changed at the time of the move; one that gets another name
/// where it is stays as it was in every respect.
pub proof fn law_moved_objects_know_their_parent(
    v: VolumeView,
    t: Tree,
    m: Set<u64>,
    from: Seq<char>,
    to: Seq<char>,
    replace: bool,
    now: i64,
)
    requires
        v.sound(t, m),
        v.rename(from, to, replace, now).0 is Ok,
        trimmed(from) != trimmed(to),
        v.plan_move(from, to) matches Ok(mv) && mv.existing is None && can_rename(
            v,
            t,
            mv,
            from,
            to,
        ),
    ensures
        ({
            let w = v.rename(from, to, replace, now).1;
            let (oid, was) = v.resolve(from)->Ok_0;
            let (a, _) = v.resolve(parent_path(parent_part(trimmed(from))))->Ok_0;
            let (b, _) = v.resolve(parent_path(parent_part(trimmed(to))))->Ok_0;
            &&& v.resolve(from) is Ok
            &&& a == b ==> w.resolve(to) == v.resolve(from)
            &&& a != b ==> w.resolve(to) == Ok::<(u64, InodeVal), Fault>(
                (oid, InodeVal { parent_id: b, change_time: now, ..was }),
            )
        }),
{
    let u = law_rename_is_shown(v, t, m, from, to, replace, now);
}

/// Only a regular file with one name and without extended attributes is
/// unlinked, and only an empty directory is removed. Everything else is refused,
/// with nothing changed.
pub proof fn law_refused_removals(v: VolumeView, path: Seq<char>)
    ensures
        v.resolve(path) is Err || trimmed(path).len() == 0 ==> {
            &&& v.unlink(path).0 is Err && v.unlink(path).1 == v
            &&& v.remove_directory(path).0 is Err && v.remove_directory(path).1 == v
        },
        v.resolve(path) matches Ok((oid, i)) ==> {
            &&& i.mode / 0x1000 != 8 ==> v.unlink(path).0 is Err && v.unlink(path).1 == v
            &&& i.nchildren_or_nlink != 1 ==> v.unlink(path).0 is Err && v.unlink(path).1 == v
            &&& v.hit(oid, J_TYPE_XATTR) matches Ok(Some(_)) ==> v.unlink(path).0 is Err
                && v.unlink(path).1 == v
            &&& i.mode / 0x1000 != 4 ==> v.remove_directory(path).0 is Err && v.remove_directory(
                path,
            ).1 == v
            &&& i.nchildren_or_nlink != 0 ==> v.remove_directory(path).0 is Err
                && v.remove_directory(path).1 == v
        },
{
    if let Ok((_, i)) = v.resolve(path) {
        let n = i.nchildren_or_nlink;
        law_mode_tells_kind(i);
        assert(n as u32 == 1 <==> n == 1) by (bit_vector);
    }
}

/// Only regular files have bytes: everything else is neither written, nor
/// appended to, nor given a size, and stays as it was. A file is not cut to a
/// size that it does not have, and not written where it does not reach.
pub proof fn law_refused_file_changes(
    v: VolumeView,
    path: Seq<char>,
    offset: u64,
    data: Seq<u8>,
    size: u64,
    now: i64,
)
    requires
        data.len() > 0,
    ensures
        v.resolve(path) is Err || (v.resolve(path) matches Ok((_, i)) && i.mode / 0x1000 != 8) ==> {
            &&& v.overwrite(path, offset, data).0 is Err && v.overwrite(path, offset, data).1 == v
            &&& v.append(path, data, now).0 is Err && v.append(path, data, now).1 == v
            &&& v.grow(path, size, now).0 is Err && v.grow(path, size, now).1 == v
            &&& v.set_size(path, size).0 is Err && v.set_size(path, size).1 == v
        },
        v.stat(path) matches Ok(s) ==> {
            &&& size > s.size ==> v.set_size(path, size).0 is Err && v.set_size(path, size).1 == v
            &&& offset >= s.size ==> v.overwrite(path, offset, data).0 is Err && v.overwrite(
                path,
                offset,
                data,
            ).1 == v
        },
{
    if let Ok((_, i)) = v.resolve(path) {
        law_mode_tells_kind(i);
    }
}

/// A rename of what is not there is refused, and so is one that would replace
/// something else than a regular file; nothing changes then. Nothing changes
/// either where both names are those of one object.
pub proof fn law_refused_renames(
    v: VolumeView,
    from: Seq<char>,
    to: Seq<char>,
    replace: bool,
    now: i64,
)
    requires
        trimmed(from) != trimmed(to),
    ensures
        v.resolve(from) is Err ==> v.rename(from, to, replace, now).0 is Err && v.rename(
            from,
            to,
            replace,
            now,
        ).1 == v,
        (v.resolve(from) matches Ok((a, _)) && (v.resolve(to) matches Ok((b, i)) && (a == b
            || i.mode / 0x1000 != 8))) ==> v.rename(from, to, replace, now).1 == v,
        (v.resolve(from) matches Ok((a, _)) && (v.resolve(to) matches Ok((b, i)) && a != b && i.mode
            / 0x1000 != 8)) ==> v.rename(from, to, replace, now).0 is Err,
{
    if let Ok((_, i)) = v.resolve(to) {
        law_mode_tells_kind(i);
    }
}

/// What is told of a volume that is mounted: the size of the container and how
/// much of it is free and used, in bytes, the name, and how many files,
/// directories and links its superblock counts. New objects are numbered from
/// where the superblock says, and the case of names does not matter where the
/// fourth bit of its features is set.
pub proof fn law_mounted_volume(disk: Seq<u8>, nx: NxView, at: u64)
    requires
        mount_at(disk, nx, Ok(at)) is Ok,
    ensures
        ({
            let v = mount_at(disk, nx, Ok(at))->Ok_0;
            let vol = volume_superblock(disk, nx)->Ok_0;
            let total = nx.block_count * nx.block_size;
            &&& v.disk == disk
            &&& v.block_size == nx.block_size
            &&& v.nx == nx
            &&& v.info.block_size == nx.block_size
            &&& v.info.name == vol.volume_name
            &&& v.info.num_files == vol.num_files
            &&& v.info.num_directories == vol.num_directories
            &&& v.info.num_symlinks == vol.num_symlinks
            &&& total <= u64::MAX ==> v.info.total_bytes == total
            &&& v.info.free_bytes <= v.info.total_bytes ==> v.info.used_bytes
                + v.info.free_bytes == v.info.total_bytes
            &&& v.next_obj_id == vol.next_obj_id
            &&& v.case_insensitive <==> vol.incompat_features / 8 % 2 == 1
            &&& v.space is None
            &&& v.spaceman_paddr == at
        }),
{
    let vol = volume_superblock(disk, nx)->Ok_0;
    let f = vol.incompat_features;
    assert(f & 0x8 != 0 <==> f / 8 % 2 == 1) by (bit_vector);
}

/// The extent map and the size that are told of a file lead to its contents.
pub proof fn law_extent_map_leads_to_contents(v: VolumeView, path: Seq<char>)
    ensures
        fork_outcome(v.opened(path), v.block_size) matches Ok((map, size)) ==> {
            &&& v.stat(path) matches Ok(s) && s.size == size
            &&& v.contents(path) == fork_prefix(v.disk, map, 0, size as int)
            &&& !(v.stat(path)->Ok_0.kind is Directory) ==> stat_and_map(v, path) == Ok::<
                (FileStat, Seq<(u64, u64, u64)>, u64),
                Fault,
            >((v.stat(path)->Ok_0, map, size))
            &&& v.stat(path)->Ok_0.kind is Directory ==> (stat_and_map(v, path) matches Ok((_, m, n))
                && m.len() == 0 && n == 0)
        },
{
}

} // verus!
