//! How a served volume is changed. Only a driver that serves read/write
//! changes anything; the others refuse.

use crate::apfs::device::WriteAt;
use crate::apfs::error::{plain, Fault};
use crate::apfs::types::EntryKind;
use crate::apfs::volume::clock::now_nanos;
use crate::apfs::volume::create::law_created_gets_next_id;
use crate::apfs::volume::leaves::comes_of;
use crate::apfs::volume::read::stat_and_map;
use crate::apfs::volume::rename::renames;
use crate::apfs::volume::state::VolumeView;
use crate::driver::cache::recalled;
use crate::driver::info::{
    file_info, fill_file_info, slash_path, slashed, FileInfo, ReadWriteMode, STATUS_IO_DEVICE_ERROR,
    STATUS_MEDIA_WRITE_PROTECTED, STATUS_NOT_IMPLEMENTED, STATUS_OBJECT_NAME_NOT_FOUND,
};
use crate::driver::serve::open_view;
use crate::driver::state::{
    law_driver_stays_well_formed, ApfsDriver, ApfsFileContext, ContextView, DriverView,
};
use crate::utils::{filetime_to_apfs_nanos, nanos_of};
use vstd::slice::slice_subrange;
use vstd::prelude::*;

verus! {

/// The create option for a directory.
pub const FILE_DIRECTORY_FILE: u32 = 0x1;

/// The cleanup flag for a file that is to be deleted.
pub const FSP_CLEANUP_DELETE: u32 = 0x1;

impl DriverView {
    /// After the volume was changed into `volume` at `path`: nothing that was
    /// known of the path holds any more.
    pub open spec fn changed(self, volume: VolumeView, path: Seq<char>) -> DriverView {
        self.on(volume).forgetting(path)
    }

    /// What is told of an open file after a change of `count` bytes.
    pub open spec fn told(self, context: ContextView, count: u32) -> (
        Result<(u32, FileInfo), u32>,
        DriverView,
    ) {
        match self.info(context, STATUS_IO_DEVICE_ERROR) {
            (Err(e), d) => (Err(e), d),
            (Ok(i), d) => (Ok((count, i)), d),
        }
    }

    /// New times for an open file. A Windows time before the Unix epoch leaves
    /// a time as it is. What is told of the file is missing where the volume
    /// cannot be asked.
    pub open spec fn set_times(
        self,
        context: ContextView,
        creation: u64,
        access: u64,
        write: u64,
        change: u64,
    ) -> (Result<Option<FileInfo>, u32>, DriverView) {
        if self.mode != ReadWriteMode::ReadWriteUnsafe {
            (Err(STATUS_MEDIA_WRITE_PROTECTED), self)
        } else {
            match self.volume.set_times(
                context.path,
                nanos_of(creation),
                nanos_of(write),
                nanos_of(change),
                nanos_of(access),
            ) {
                (Err(_), v) => (Err(STATUS_IO_DEVICE_ERROR), self.on(v)),
                (Ok(_), v) => (
                    match v.stat(context.path) {
                        Err(_) => Ok(None),
                        Ok(stat) => Ok(Some(file_info(stat, stat.size, self.mode))),
                    },
                    self.changed(v, context.path),
                ),
            }
        }
    }

    /// Bytes added at the end of an open file.
    pub open spec fn append(self, context: ContextView, data: Seq<u8>, now: i64) -> (
        Result<(u32, FileInfo), u32>,
        DriverView,
    ) {
        match self.volume.append(context.path, data, now) {
            (Err(_), v) => (Err(STATUS_IO_DEVICE_ERROR), self.on(v)),
            (Ok(_), v) => self.changed(v, context.path).told(context, data.len() as u32),
        }
    }

    /// Bytes written past the end of an open file: it is made longer, and
    /// written through the extents it then has.
    pub open spec fn extend(self, context: ContextView, data: Seq<u8>, offset: u64, now: i64) -> (
        Result<(u32, FileInfo), u32>,
        DriverView,
    ) {
        match self.volume.grow(context.path, (offset + data.len()) as u64, now) {
            (Err(_), v) => (Err(STATUS_IO_DEVICE_ERROR), self.on(v)),
            (Ok(_), v) => match stat_and_map(v, context.path) {
                Err(_) => (Err(STATUS_IO_DEVICE_ERROR), self.on(v)),
                Ok((_, map, _)) => match v.write_spans(map, offset as int, data) {
                    (Err(_), w) => (Err(STATUS_IO_DEVICE_ERROR), self.on(w)),
                    (Ok(_), w) => self.changed(w, context.path).told(context, data.len() as u32),
                },
            },
        }
    }

    /// Bytes written inside an open file.
    pub open spec fn rewrite(self, context: ContextView, data: Seq<u8>, offset: u64) -> (
        Result<(u32, FileInfo), u32>,
        DriverView,
    ) {
        match self.volume.write_spans(context.extent_map, offset as int, data) {
            (Err(_), v) => (Err(STATUS_IO_DEVICE_ERROR), self.on(v)),
            (Ok(n), v) => self.on(v).told(context, n as u32),
        }
    }

    /// A write to an open file. A constrained write stays inside the file, and
    /// what is behind its end is left out. Others may make it longer.
    pub open spec fn write(
        self,
        context: ContextView,
        data: Seq<u8>,
        offset: u64,
        to_eof: bool,
        constrained: bool,
        now: i64,
    ) -> (Result<(u32, FileInfo), u32>, DriverView) {
        let room = if offset <= context.file_size {
            context.file_size - offset
        } else {
            0
        };
        if self.mode != ReadWriteMode::ReadWriteUnsafe {
            (Err(STATUS_MEDIA_WRITE_PROTECTED), self)
        } else if data.len() == 0 {
            self.told(context, 0)
        } else if to_eof {
            self.append(context, data, now)
        } else if room == 0 && constrained {
            self.told(context, 0)
        } else if data.len() <= room {
            self.rewrite(context, data, offset)
        } else if constrained {
            self.rewrite(context, data.take(room), offset)
        } else {
            self.extend(context, data, offset, now)
        }
    }

    /// A new size for an open file. What a file loses stays allocated.
    pub open spec fn resize(self, context: ContextView, new_size: u64, now: i64) -> (
        Result<FileInfo, u32>,
        DriverView,
    ) {
        if self.mode != ReadWriteMode::ReadWriteUnsafe {
            (Err(STATUS_MEDIA_WRITE_PROTECTED), self)
        } else if new_size == context.file_size {
            self.info(context, STATUS_IO_DEVICE_ERROR)
        } else {
            let change = if new_size > context.file_size {
                self.volume.grow(context.path, new_size, now)
            } else {
                self.volume.set_size(context.path, new_size)
            };
            match change {
                (Err(_), v) => (Err(STATUS_IO_DEVICE_ERROR), self.on(v)),
                (Ok(_), v) => self.changed(v, context.path).info(context, STATUS_IO_DEVICE_ERROR),
            }
        }
    }

    /// An open file that is overwritten: it gets the size of its new allocation.
    pub open spec fn overwritten(self, context: ContextView, allocation_size: u64, now: i64) -> (
        Result<FileInfo, u32>,
        DriverView,
    ) {
        self.resize(context, allocation_size, now)
    }

    /// Whether an open file may be marked for deletion: directories and files
    /// with one name may.
    pub open spec fn deletable(self, context: ContextView, delete_file: bool) -> Result<(), u32> {
        if self.mode != ReadWriteMode::ReadWriteUnsafe {
            Err(STATUS_MEDIA_WRITE_PROTECTED)
        } else if !delete_file {
            Ok(())
        } else {
            match self.volume.stat(context.path) {
                Err(_) => Err(STATUS_OBJECT_NAME_NOT_FOUND),
                Ok(stat) => if stat.kind == EntryKind::Directory || (stat.kind == EntryKind::File
                    && stat.nlink == 1) {
                    Ok(())
                } else {
                    Err(STATUS_NOT_IMPLEMENTED)
                },
            }
        }
    }

    /// A new name for an object.
    pub open spec fn rename(self, from: Seq<char>, to: Seq<char>, replace: bool, now: i64) -> (
        Result<(), u32>,
        DriverView,
    ) {
        if self.mode != ReadWriteMode::ReadWriteUnsafe {
            (Err(STATUS_MEDIA_WRITE_PROTECTED), self)
        } else {
            match self.volume.rename(slashed(from), slashed(to), replace, now) {
                (Err(_), v) => (Err(STATUS_IO_DEVICE_ERROR), self.on(v)),
                (Ok(_), v) => (
                    Ok(()),
                    self.on(v).forgetting(slashed(from)).forgetting(slashed(to)),
                ),
            }
        }
    }

    /// A new file or directory, which is opened.
    pub open spec fn create(self, file_name: Seq<char>, options: u32, now: i64) -> (
        Result<(ContextView, FileInfo), u32>,
        DriverView,
    ) {
        let path = slashed(file_name);
        if self.mode != ReadWriteMode::ReadWriteUnsafe {
            (Err(STATUS_MEDIA_WRITE_PROTECTED), self)
        } else {
            let made = if options & FILE_DIRECTORY_FILE != 0 {
                self.volume.create(path, "create_directory"@, true, now)
            } else {
                self.volume.create(path, "create_file"@, false, now)
            };
            match made {
                (Err(_), v) => (Err(STATUS_IO_DEVICE_ERROR), self.on(v)),
                (Ok(_), v) => match self.on(v).resolved(path) {
                    None => (Err(STATUS_IO_DEVICE_ERROR), self.on(v)),
                    Some(c) => (Ok(self.opened_as(path, c)), self.on(v).noting(path, c)),
                },
            }
        }
    }

    /// Whether `d` and what is told come of times that were set.
    pub open spec fn times_set(
        self,
        r: Result<Option<FileInfo>, u32>,
        d: DriverView,
        context: ContextView,
        creation: u64,
        access: u64,
        write: u64,
        change: u64,
    ) -> bool {
        &&& comes_of(
            self.volume.nx,
            Ok(()),
            d.volume,
            self.volume.set_times(
                context.path,
                nanos_of(creation),
                nanos_of(write),
                nanos_of(change),
                nanos_of(access),
            ),
            false,
        )
        &&& d == self.changed(d.volume, context.path)
        &&& r matches Ok(Some(i)) ==> (d.volume.stat(context.path) matches Ok(stat) && i
            == file_info(stat, stat.size, self.mode))
    }

    /// Whether `d` and what is told come of bytes added at the end.
    pub open spec fn appended(
        self,
        r: Result<(u32, FileInfo), u32>,
        d: DriverView,
        context: ContextView,
        data: Seq<u8>,
        now: i64,
    ) -> bool {
        &&& comes_of(
            self.volume.nx,
            Ok(data.len() as u64),
            d.volume,
            self.volume.append(context.path, data, now),
            false,
        )
        &&& (r, d) == self.changed(d.volume, context.path).told(context, data.len() as u32)
    }

    /// Whether `d` and what is told come of bytes written past the end.
    pub open spec fn extended(
        self,
        r: Result<(u32, FileInfo), u32>,
        d: DriverView,
        context: ContextView,
        data: Seq<u8>,
        offset: u64,
        now: i64,
    ) -> bool {
        &&& exists|mid: VolumeView|
            #![trigger stat_and_map(mid, context.path)]
            {
                &&& comes_of(
                    self.volume.nx,
                    Ok(()),
                    mid,
                    self.volume.grow(context.path, (offset + data.len()) as u64, now),
                    false,
                )
                &&& stat_and_map(mid, context.path) matches Ok((_, map, _)) && mid.write_spans(
                    map,
                    offset as int,
                    data,
                ).0 is Ok && d.volume == mid.write_spans(map, offset as int, data).1
            }
        &&& (r, d) == self.changed(d.volume, context.path).told(context, data.len() as u32)
    }

    /// Whether `d` and what is told come of a write that succeeded.
    pub open spec fn written(
        self,
        r: Result<(u32, FileInfo), u32>,
        d: DriverView,
        context: ContextView,
        data: Seq<u8>,
        offset: u64,
        to_eof: bool,
        constrained: bool,
        now: i64,
    ) -> bool {
        let room = if offset <= context.file_size {
            context.file_size - offset
        } else {
            0
        };
        if data.len() > 0 && to_eof {
            self.appended(r, d, context, data, now)
        } else if data.len() > room && !constrained {
            self.extended(r, d, context, data, offset, now)
        } else {
            (r, d) == self.write(context, data, offset, to_eof, constrained, now)
        }
    }

    /// Whether `d` and what is told come of a new size that was set.
    pub open spec fn resized(
        self,
        r: Result<FileInfo, u32>,
        d: DriverView,
        context: ContextView,
        new_size: u64,
        now: i64,
    ) -> bool {
        if new_size == context.file_size {
            (r, d) == self.resize(context, new_size, now)
        } else {
            &&& comes_of(
                self.volume.nx,
                Ok(()),
                d.volume,
                if new_size > context.file_size {
                    self.volume.grow(context.path, new_size, now)
                } else {
                    self.volume.set_size(context.path, new_size)
                },
                false,
            )
            &&& (r, d) == self.changed(d.volume, context.path).info(
                context,
                STATUS_IO_DEVICE_ERROR,
            )
        }
    }

    /// Whether `d` comes of a rename that succeeded.
    pub open spec fn renamed(
        self,
        d: DriverView,
        from: Seq<char>,
        to: Seq<char>,
        replace: bool,
        now: i64,
    ) -> bool {
        &&& renames(
            self.volume,
            Ok(()),
            d.volume,
            slashed(from),
            slashed(to),
            replace,
            now,
            false,
        )
        &&& d == self.on(d.volume).forgetting(slashed(from)).forgetting(slashed(to))
    }

    /// Whether `d` and what is told come of a file or directory that was made.
    pub open spec fn made(
        self,
        r: Result<(ContextView, FileInfo), u32>,
        d: DriverView,
        file_name: Seq<char>,
        options: u32,
        now: i64,
    ) -> bool {
        let path = slashed(file_name);
        &&& comes_of(
            self.volume.nx,
            Ok(self.volume.next_obj_id),
            d.volume,
            if options & FILE_DIRECTORY_FILE != 0 {
                self.volume.create(path, "create_directory"@, true, now)
            } else {
                self.volume.create(path, "create_file"@, false, now)
            },
            false,
        )
        &&& self.on(d.volume).resolved(path) matches Some(c) && r == Ok::<
            (ContextView, FileInfo),
            u32,
        >(self.opened_as(path, c)) && d == self.on(d.volume).noting(path, c)
    }

    /// What kind of object an open file is, if anything can tell.
    pub open spec fn kind_of(self, path: Seq<char>) -> Option<EntryKind> {
        match recalled(self.cache, path) {
            Some(c) => Some(c.stat.kind),
            None => match self.volume.stat(path) {
                Ok(stat) => Some(stat.kind),
                Err(_) => None,
            },
        }
    }

    /// Whether a write goes past the end of the file at `offset`: one that is
    /// empty, goes to the end or may not extend the file does not.
    pub open spec fn extends(
        self,
        context: ContextView,
        data: Seq<u8>,
        offset: u64,
        write_to_eof: bool,
        constrained_io: bool,
    ) -> bool {
        &&& self.mode == ReadWriteMode::ReadWriteUnsafe
        &&& data.len() > 0
        &&& !write_to_eof
        &&& !constrained_io
        &&& offset + data.len() > context.file_size
    }

    /// Whether closing the last handle to a file deletes it.
    pub open spec fn deletes(self, flags: u32) -> bool {
        self.mode == ReadWriteMode::ReadWriteUnsafe && flags & FSP_CLEANUP_DELETE != 0
    }

    /// Whether `after` comes of closing the last handle to a file that is to be
    /// deleted, with `done` told of the deletion: the path is forgotten, and
    /// nothing but the deletion has changed the volume.
    pub open spec fn cleaned(
        self,
        after: DriverView,
        context: ContextView,
        is_dir: bool,
        done: Result<(), Fault>,
    ) -> bool {
        &&& is_dir ==> self.kind_of(context.path) == Some(EntryKind::Directory)
        &&& comes_of(
            self.volume.nx,
            done,
            after.volume,
            if is_dir {
                self.volume.remove_directory(context.path)
            } else {
                self.volume.unlink(context.path)
            },
            false,
        )
        &&& after == self.looked_up(context.path).changed(after.volume, context.path)
    }

    /// The last handle to a file is closed. Only the delete flag is heeded;
    /// that the deletion failed is not told.
    pub open spec fn cleanup(self, context: ContextView, flags: u32) -> DriverView {
        if !self.deletes(flags) {
            self
        } else {
            let d = self.looked_up(context.path);
            let v = if self.kind_of(context.path) == Some(EntryKind::Directory) {
                self.volume.remove_directory(context.path).1
            } else {
                self.volume.unlink(context.path).1
            };
            d.changed(v, context.path)
        }
    }
}

impl<D: WriteAt> ApfsDriver<D> {
    fn writable(&self) -> (b: bool)
        ensures
            b == (self@.mode == ReadWriteMode::ReadWriteUnsafe),
    {
        self.mode == ReadWriteMode::ReadWriteUnsafe
    }

    fn tell(&mut self, context: &ApfsFileContext, count: u32) -> (r: Result<(u32, FileInfo), u32>)
        requires
            old(self)@.wf(),
        ensures
            final(self)@.wf(),
            final(self).volume == old(self).volume,
            old(self).volume.dev.reliable() || r is Ok ==> (r, final(self)@) == old(self)@.told(
                context@,
                count,
            ),
            r matches Err(e) ==> e == STATUS_IO_DEVICE_ERROR,
    {
        let info = self.info_or(context, STATUS_IO_DEVICE_ERROR)?;
        Ok((count, info))
    }

    fn forget(&mut self, path: &str)
        requires
            old(self)@.wf(),
        ensures
            final(self)@.wf(),
            final(self).volume == old(self).volume,
            final(self)@ == old(self)@.forgetting(path@),
    {
        proof {
            law_driver_stays_well_formed(self@, path@, arbitrary());
        }
        self.drop_cached_stat(path);
    }

    /// Set the times of an open file. Times of 0 are left as they are.
    pub fn set_basic_info(
        &mut self,
        context: &ApfsFileContext,
        creation_time: u64,
        last_access_time: u64,
        last_write_time: u64,
        last_change_time: u64,
    ) -> (r: Result<Option<FileInfo>, u32>)
        requires
            old(self)@.wf(),
        ensures
            final(self)@.wf(),
            final(self).volume.dev.reliable() == old(self).volume.dev.reliable(),
            old(self)@.mode != ReadWriteMode::ReadOnly ==> (r matches Err(e) ==> e
                == STATUS_IO_DEVICE_ERROR),
            old(self)@.mode == ReadWriteMode::ReadOnly ==> final(self)@ == old(self)@ && r == Err::<
                Option<FileInfo>,
                u32,
            >(STATUS_MEDIA_WRITE_PROTECTED),
            old(self).volume.dev.reliable() ==> (r, final(self)@) == old(self)@.set_times(
                context@,
                creation_time,
                last_access_time,
                last_write_time,
                last_change_time,
            ),
            r is Ok ==> old(self)@.times_set(
                r,
                final(self)@,
                context@,
                creation_time,
                last_access_time,
                last_write_time,
                last_change_time,
            ),
    {
        if !self.writable() {
            return Err(STATUS_MEDIA_WRITE_PROTECTED);
        }
        let create = filetime_to_apfs_nanos(creation_time);
        let access = filetime_to_apfs_nanos(last_access_time);
        let write = filetime_to_apfs_nanos(last_write_time);
        let change = filetime_to_apfs_nanos(last_change_time);
        match self.volume.set_inode_times(context.path.as_str(), create, write, change, access) {
            Err(_) => {
                return Err(STATUS_IO_DEVICE_ERROR);
            },
            Ok(_) => {},
        }
        self.forget(context.path.as_str());
        match self.volume.stat(context.path.as_str()) {
            Err(_) => Ok(None),
            Ok(stat) => Ok(Some(fill_file_info(&stat, stat.size, self.mode))),
        }
    }

    fn append_at(&mut self, context: &ApfsFileContext, buffer: &[u8], now: i64) -> (r: Result<
        (u32, FileInfo),
        u32,
    >)
        requires
            old(self)@.wf(),
            buffer.len() <= u32::MAX,
        ensures
            final(self)@.wf(),
            final(self).volume.dev.reliable() == old(self).volume.dev.reliable(),
            r matches Err(e) ==> e == STATUS_IO_DEVICE_ERROR,
            old(self).volume.dev.reliable() ==> (r, final(self)@) == old(self)@.append(
                context@,
                buffer@,
                now,
            ),
            r is Ok ==> old(self)@.appended(r, final(self)@, context@, buffer@, now),
    {
        match self.volume.append_data_at(context.path.as_str(), buffer, now) {
            Err(_) => Err(STATUS_IO_DEVICE_ERROR),
            Ok(_) => {
                self.forget(context.path.as_str());
                self.tell(context, buffer.len() as u32)
            },
        }
    }

    fn extend_at(&mut self, context: &ApfsFileContext, buffer: &[u8], offset: u64, now: i64) -> (r:
        Result<(u32, FileInfo), u32>)
        requires
            old(self)@.wf(),
            buffer.len() <= u32::MAX,
            offset + buffer.len() <= u64::MAX,
        ensures
            final(self)@.wf(),
            final(self).volume.dev.reliable() == old(self).volume.dev.reliable(),
            r matches Err(e) ==> e == STATUS_IO_DEVICE_ERROR,
            old(self).volume.dev.reliable() ==> (r, final(self)@) == old(self)@.extend(
                context@,
                buffer@,
                offset,
                now,
            ),
            r is Ok ==> old(self)@.extended(r, final(self)@, context@, buffer@, offset, now),
    {
        let new_size: u64 = offset + buffer.len() as u64;
        match self.volume.grow_file_at(context.path.as_str(), new_size, now) {
            Err(_) => {
                return Err(STATUS_IO_DEVICE_ERROR);
            },
            Ok(_) => {},
        }
        let map = match self.volume.stat_and_extents(context.path.as_str()) {
            Err(_) => {
                return Err(STATUS_IO_DEVICE_ERROR);
            },
            Ok((_, map, _)) => map,
        };
        match self.volume.write_at_extents(map.as_slice(), offset, buffer) {
            Err(_) => Err(STATUS_IO_DEVICE_ERROR),
            Ok(_) => {
                self.forget(context.path.as_str());
                self.tell(context, buffer.len() as u32)
            },
        }
    }

    fn rewrite(&mut self, context: &ApfsFileContext, buffer: &[u8], offset: u64) -> (r: Result<
        (u32, FileInfo),
        u32,
    >)
        requires
            old(self)@.wf(),
            buffer.len() <= u32::MAX,
        ensures
            final(self)@.wf(),
            final(self).volume.dev.reliable() == old(self).volume.dev.reliable(),
            r matches Err(e) ==> e == STATUS_IO_DEVICE_ERROR,
            old(self).volume.dev.reliable() || r is Ok ==> (r, final(self)@) == old(self)@.rewrite(
                context@,
                buffer@,
                offset,
            ),
    {
        match self.volume.write_at_extents(context.extent_map.as_slice(), offset, buffer) {
            Err(_) => Err(STATUS_IO_DEVICE_ERROR),
            Ok(n) => self.tell(context, n as u32),
        }
    }

    /// Write to an open file at the time `now`. Returns how many bytes were
    /// written, and what is told of the file.
    pub fn write_at_time(
        &mut self,
        context: &ApfsFileContext,
        buffer: &[u8],
        offset: u64,
        write_to_eof: bool,
        constrained_io: bool,
        now: i64,
    ) -> (r: Result<(u32, FileInfo), u32>)
        requires
            old(self)@.wf(),
            buffer.len() <= u32::MAX,
            old(self)@.extends(context@, buffer@, offset, write_to_eof, constrained_io) ==> offset
                + buffer.len() <= u64::MAX,
        ensures
            final(self)@.wf(),
            final(self).volume.dev.reliable() == old(self).volume.dev.reliable(),
            old(self)@.mode != ReadWriteMode::ReadOnly ==> (r matches Err(e) ==> e
                == STATUS_IO_DEVICE_ERROR),
            old(self)@.mode == ReadWriteMode::ReadOnly ==> final(self)@ == old(self)@ && r == Err::<
                (u32, FileInfo),
                u32,
            >(STATUS_MEDIA_WRITE_PROTECTED),
            old(self).volume.dev.reliable() ==> (r, final(self)@) == old(self)@.write(
                context@,
                buffer@,
                offset,
                write_to_eof,
                constrained_io,
                now,
            ),
            r is Ok ==> old(self)@.written(
                r,
                final(self)@,
                context@,
                buffer@,
                offset,
                write_to_eof,
                constrained_io,
                now,
            ),
    {
        if !self.writable() {
            return Err(STATUS_MEDIA_WRITE_PROTECTED);
        }
        if buffer.len() == 0 {
            return self.tell(context, 0);
        }
        if write_to_eof {
            return self.append_at(context, buffer, now);
        }
        let room: u64 = if offset <= context.file_size {
            context.file_size - offset
        } else {
            0
        };
        if room == 0 && constrained_io {
            return self.tell(context, 0);
        }
        if buffer.len() as u64 <= room {
            return self.rewrite(context, buffer, offset);
        }
        if constrained_io {
            assert(buffer@.subrange(0, room as int) =~= buffer@.take(room as int));
            return self.rewrite(context, slice_subrange(buffer, 0, room as usize), offset);
        }
        self.extend_at(context, buffer, offset, now)
    }

    /// Write to an open file. Returns how many bytes were written, and what is
    /// told of the file.
    pub fn write(
        &mut self,
        context: &ApfsFileContext,
        buffer: &[u8],
        offset: u64,
        write_to_eof: bool,
        constrained_io: bool,
    ) -> (r: Result<(u32, FileInfo), u32>)
        requires
            old(self)@.wf(),
            buffer.len() <= u32::MAX,
            old(self)@.extends(context@, buffer@, offset, write_to_eof, constrained_io) ==> offset
                + buffer.len() <= u64::MAX,
        ensures
            final(self)@.wf(),
            final(self).volume.dev.reliable() == old(self).volume.dev.reliable(),
            old(self)@.mode != ReadWriteMode::ReadOnly ==> (r matches Err(e) ==> e
                == STATUS_IO_DEVICE_ERROR),
            old(self)@.mode == ReadWriteMode::ReadOnly ==> final(self)@ == old(self)@ && r == Err::<
                (u32, FileInfo),
                u32,
            >(STATUS_MEDIA_WRITE_PROTECTED),
            old(self).volume.dev.reliable() ==> exists|now: i64|
                (r, final(self)@) == #[trigger] old(self)@.write(
                    context@,
                    buffer@,
                    offset,
                    write_to_eof,
                    constrained_io,
                    now,
                ),
            r is Ok ==> exists|now: i64| #[trigger]
                old(self)@.written(
                    r,
                    final(self)@,
                    context@,
                    buffer@,
                    offset,
                    write_to_eof,
                    constrained_io,
                    now,
                ),
    {
        let now: i64 = now_nanos();
        self.write_at_time(context, buffer, offset, write_to_eof, constrained_io, now)
    }

    /// Set the size of an open file at the time `now`.
    pub fn resize_at_time(&mut self, context: &ApfsFileContext, new_size: u64, now: i64) -> (r:
        Result<FileInfo, u32>)
        requires
            old(self)@.wf(),
        ensures
            final(self)@.wf(),
            final(self).volume.dev.reliable() == old(self).volume.dev.reliable(),
            old(self)@.mode != ReadWriteMode::ReadOnly ==> (r matches Err(e) ==> e
                == STATUS_IO_DEVICE_ERROR),
            old(self)@.mode == ReadWriteMode::ReadOnly ==> final(self)@ == old(self)@ && r == Err::<
                FileInfo,
                u32,
            >(STATUS_MEDIA_WRITE_PROTECTED),
            old(self).volume.dev.reliable() ==> (r, final(self)@) == old(self)@.resize(
                context@,
                new_size,
                now,
            ),
            r is Ok ==> old(self)@.resized(r, final(self)@, context@, new_size, now),
    {
        if !self.writable() {
            return Err(STATUS_MEDIA_WRITE_PROTECTED);
        }
        if new_size == context.file_size {
            return self.info_or(context, STATUS_IO_DEVICE_ERROR);
        }
        let done = if new_size > context.file_size {
            self.volume.grow_file_at(context.path.as_str(), new_size, now)
        } else {
            self.volume.set_logical_size(context.path.as_str(), new_size)
        };
        match done {
            Err(_) => Err(STATUS_IO_DEVICE_ERROR),
            Ok(_) => {
                self.forget(context.path.as_str());
                self.info_or(context, STATUS_IO_DEVICE_ERROR)
            },
        }
    }

    /// Set the size of an open file.
    pub fn set_file_size(&mut self, context: &ApfsFileContext, new_size: u64) -> (r: Result<
        FileInfo,
        u32,
    >)
        requires
            old(self)@.wf(),
        ensures
            final(self)@.wf(),
            final(self).volume.dev.reliable() == old(self).volume.dev.reliable(),
            old(self)@.mode != ReadWriteMode::ReadOnly ==> (r matches Err(e) ==> e
                == STATUS_IO_DEVICE_ERROR),
            old(self)@.mode == ReadWriteMode::ReadOnly ==> final(self)@ == old(self)@ && r == Err::<
                FileInfo,
                u32,
            >(STATUS_MEDIA_WRITE_PROTECTED),
            old(self).volume.dev.reliable() ==> exists|now: i64|
                (r, final(self)@) == #[trigger] old(self)@.resize(context@, new_size, now),
            r is Ok ==> exists|now: i64| #[trigger]
                old(self)@.resized(r, final(self)@, context@, new_size, now),
    {
        let now: i64 = now_nanos();
        self.resize_at_time(context, new_size, now)
    }

    /// Overwrite an open file: it gets the size of its new allocation.
    pub fn overwrite(&mut self, context: &ApfsFileContext, allocation_size: u64) -> (r: Result<
        FileInfo,
        u32,
    >)
        requires
            old(self)@.wf(),
        ensures
            final(self)@.wf(),
            final(self).volume.dev.reliable() == old(self).volume.dev.reliable(),
            old(self)@.mode != ReadWriteMode::ReadOnly ==> (r matches Err(e) ==> e
                == STATUS_IO_DEVICE_ERROR),
            old(self)@.mode == ReadWriteMode::ReadOnly ==> final(self)@ == old(self)@ && r == Err::<
                FileInfo,
                u32,
            >(STATUS_MEDIA_WRITE_PROTECTED),
            old(self).volume.dev.reliable() ==> exists|now: i64|
                (r, final(self)@) == #[trigger] old(self)@.overwritten(
                    context@,
                    allocation_size,
                    now,
                ),
            r is Ok ==> exists|now: i64| #[trigger]
                old(self)@.resized(r, final(self)@, context@, allocation_size, now),
    {
        let now: i64 = now_nanos();
        let r = self.resize_at_time(context, allocation_size, now);
        assert(old(self)@.overwritten(context@, allocation_size, now) == old(self)@.resize(
            context@,
            allocation_size,
            now,
        ));
        r
    }

    /// Check whether an open file may be marked for deletion, or take the mark
    /// back. The deletion itself happens in [`Self::cleanup`].
    pub fn set_delete(&self, context: &ApfsFileContext, delete_file: bool) -> (r: Result<(), u32>)
        ensures
            self@.mode == ReadWriteMode::ReadOnly ==> r == Err::<(), u32>(
                STATUS_MEDIA_WRITE_PROTECTED,
            ),
            self.volume.dev.reliable() || r is Ok ==> r == self@.deletable(context@, delete_file),
            r matches Err(e) ==> r == self@.deletable(context@, delete_file) || (delete_file && e
                == STATUS_OBJECT_NAME_NOT_FOUND),
    {
        if !self.writable() {
            return Err(STATUS_MEDIA_WRITE_PROTECTED);
        }
        if !delete_file {
            return Ok(());
        }
        match self.volume.stat(context.path.as_str()) {
            Err(_) => Err(STATUS_OBJECT_NAME_NOT_FOUND),
            Ok(stat) => if stat.kind == EntryKind::Directory || (stat.kind == EntryKind::File
                && stat.nlink == 1) {
                Ok(())
            } else {
                Err(STATUS_NOT_IMPLEMENTED)
            },
        }
    }

    /// Rename an object at the time `now`. Both names are Windows paths.
    pub fn rename_at_time(
        &mut self,
        file_name: &str,
        new_file_name: &str,
        replace_if_exists: bool,
        now: i64,
    ) -> (r: Result<(), u32>)
        requires
            old(self)@.wf(),
        ensures
            final(self)@.wf(),
            final(self).volume.dev.reliable() == old(self).volume.dev.reliable(),
            old(self)@.mode != ReadWriteMode::ReadOnly ==> (r matches Err(e) ==> e
                == STATUS_IO_DEVICE_ERROR),
            old(self)@.mode == ReadWriteMode::ReadOnly ==> final(self)@ == old(self)@ && r == Err::<
                (),
                u32,
            >(STATUS_MEDIA_WRITE_PROTECTED),
            old(self).volume.dev.reliable() ==> (r, final(self)@) == old(self)@.rename(
                file_name@,
                new_file_name@,
                replace_if_exists,
                now,
            ),
            r is Ok ==> old(self)@.renamed(
                final(self)@,
                file_name@,
                new_file_name@,
                replace_if_exists,
                now,
            ),
    {
        if !self.writable() {
            return Err(STATUS_MEDIA_WRITE_PROTECTED);
        }
        let from = slash_path(file_name);
        let to = slash_path(new_file_name);
        match self.volume.rename_file_at(from.as_str(), to.as_str(), replace_if_exists, now) {
            Err(_) => Err(STATUS_IO_DEVICE_ERROR),
            Ok(_) => {
                self.forget(from.as_str());
                self.forget(to.as_str());
                Ok(())
            },
        }
    }

    /// Rename an object. Both names are Windows paths.
    pub fn rename(&mut self, file_name: &str, new_file_name: &str, replace_if_exists: bool) -> (r:
        Result<(), u32>)
        requires
            old(self)@.wf(),
        ensures
            final(self)@.wf(),
            final(self).volume.dev.reliable() == old(self).volume.dev.reliable(),
            old(self)@.mode != ReadWriteMode::ReadOnly ==> (r matches Err(e) ==> e
                == STATUS_IO_DEVICE_ERROR),
            old(self)@.mode == ReadWriteMode::ReadOnly ==> final(self)@ == old(self)@ && r == Err::<
                (),
                u32,
            >(STATUS_MEDIA_WRITE_PROTECTED),
            old(self).volume.dev.reliable() ==> exists|now: i64|
                (r, final(self)@) == #[trigger] old(self)@.rename(
                    file_name@,
                    new_file_name@,
                    replace_if_exists,
                    now,
                ),
            r is Ok ==> exists|now: i64| #[trigger]
                old(self)@.renamed(
                    final(self)@,
                    file_name@,
                    new_file_name@,
                    replace_if_exists,
                    now,
                ),
    {
        let now: i64 = now_nanos();
        self.rename_at_time(file_name, new_file_name, replace_if_exists, now)
    }

    /// Create a file or a directory at the time `now`, and open it.
    pub fn create_at_time(&mut self, file_name: &str, create_options: u32, now: i64) -> (r: Result<
        (ApfsFileContext, FileInfo),
        u32,
    >)
        requires
            old(self)@.wf(),
        ensures
            final(self)@.wf(),
            final(self).volume.dev.reliable() == old(self).volume.dev.reliable(),
            old(self)@.mode != ReadWriteMode::ReadOnly ==> (r matches Err(e) ==> e
                == STATUS_IO_DEVICE_ERROR),
            old(self)@.mode == ReadWriteMode::ReadOnly ==> final(self)@ == old(self)@ && open_view(
                r,
            ) == Err::<(ContextView, FileInfo), u32>(STATUS_MEDIA_WRITE_PROTECTED),
            old(self).volume.dev.reliable() ==> (open_view(r), final(self)@) == old(self)@.create(
                file_name@,
                create_options,
                now,
            ),
            r is Ok ==> old(self)@.made(
                open_view(r),
                final(self)@,
                file_name@,
                create_options,
                now,
            ),
    {
        if !self.writable() {
            return Err(STATUS_MEDIA_WRITE_PROTECTED);
        }
        let path = slash_path(file_name);
        proof {
            law_created_gets_next_id(self.volume@, path@, "create_directory"@, true, now);
            law_created_gets_next_id(self.volume@, path@, "create_file"@, false, now);
        }
        let made = if create_options & FILE_DIRECTORY_FILE != 0 {
            self.volume.create_directory_at(path.as_str(), now)
        } else {
            self.volume.create_file_at(path.as_str(), now)
        };
        match made {
            Err(_) => {
                return Err(STATUS_IO_DEVICE_ERROR);
            },
            Ok(_) => {},
        }
        match self.resolve(path.as_str()) {
            None => Err(STATUS_IO_DEVICE_ERROR),
            Some(c) => {
                proof {
                    law_driver_stays_well_formed(self@, path@, c@);
                }
                let opened = self.open_as(path.clone(), c.clone());
                self.put_cached_stat(path, c);
                Ok(opened)
            },
        }
    }

    /// Create a file or a directory, and open it.
    pub fn create(&mut self, file_name: &str, create_options: u32) -> (r: Result<
        (ApfsFileContext, FileInfo),
        u32,
    >)
        requires
            old(self)@.wf(),
        ensures
            final(self)@.wf(),
            final(self).volume.dev.reliable() == old(self).volume.dev.reliable(),
            old(self)@.mode != ReadWriteMode::ReadOnly ==> (r matches Err(e) ==> e
                == STATUS_IO_DEVICE_ERROR),
            old(self)@.mode == ReadWriteMode::ReadOnly ==> final(self)@ == old(self)@ && open_view(
                r,
            ) == Err::<(ContextView, FileInfo), u32>(STATUS_MEDIA_WRITE_PROTECTED),
            old(self).volume.dev.reliable() ==> exists|now: i64|
                (open_view(r), final(self)@) == #[trigger] old(self)@.create(
                    file_name@,
                    create_options,
                    now,
                ),
            r is Ok ==> exists|now: i64| #[trigger]
                old(self)@.made(open_view(r), final(self)@, file_name@, create_options, now),
    {
        let now: i64 = now_nanos();
        self.create_at_time(file_name, create_options, now)
    }

    /// Close the last handle to a file, and delete it if that was asked for.
    pub fn cleanup(&mut self, context: &ApfsFileContext, flags: u32)
        requires
            old(self)@.wf(),
        ensures
            final(self)@.wf(),
            final(self).volume.dev.reliable() == old(self).volume.dev.reliable(),
            old(self)@.mode == ReadWriteMode::ReadOnly ==> final(self)@ == old(self)@,
            old(self).volume.dev.reliable() ==> final(self)@ == old(self)@.cleanup(context@, flags),
            !old(self)@.deletes(flags) ==> final(self)@ == old(self)@,
            old(self)@.deletes(flags) ==> exists|is_dir: bool, done: Result<(), Fault>| #[trigger]
                old(self)@.cleaned(final(self)@, context@, is_dir, done),
    {
        if !self.writable() || flags & FSP_CLEANUP_DELETE == 0 {
            return;
        }
        proof {
            law_driver_stays_well_formed(self@, context.path@, arbitrary());
        }
        let kind = match self.get_cached_stat(context.path.as_str()) {
            Some(c) => Some(c.stat.kind),
            None => match self.volume.stat(context.path.as_str()) {
                Ok(stat) => Some(stat.kind),
                Err(_) => None,
            },
        };
        let is_dir = match kind {
            Some(k) => k == EntryKind::Directory,
            None => false,
        };
        let gone = if is_dir {
            self.volume.unlink_directory(context.path.as_str())
        } else {
            self.volume.unlink_file(context.path.as_str())
        };
        self.forget(context.path.as_str());
        assert(old(self)@.cleaned(self@, context@, is_dir, plain(gone)));
    }
}

/// A driver that serves read-only never changes anything, whatever is asked of
/// it.
pub proof fn law_read_only_changes_nothing(d: DriverView)
    requires
        d.mode == ReadWriteMode::ReadOnly,
    ensures
        forall|c: ContextView, data: Seq<u8>, at: u64, eof: bool, bound: bool, now: i64|
            (#[trigger] d.write(c, data, at, eof, bound, now)).1 == d,
        forall|c: ContextView, size: u64, now: i64| (#[trigger] d.resize(c, size, now)).1 == d,
        forall|c: ContextView, t: u64, u: u64, v: u64, w: u64|
            (#[trigger] d.set_times(c, t, u, v, w)).1 == d,
        forall|from: Seq<char>, to: Seq<char>, replace: bool, now: i64|
            (#[trigger] d.rename(from, to, replace, now)).1 == d,
        forall|name: Seq<char>, options: u32, now: i64|
            (#[trigger] d.create(name, options, now)).1 == d,
        forall|c: ContextView, flags: u32| #[trigger] d.cleanup(c, flags) == d,
{
}

} // verus!
