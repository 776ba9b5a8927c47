//! Overwriting bytes of existing files.

use crate::apfs::catalog::records::{inode_size, mode_kind, INODE_FILE_TYPE};
use crate::apfs::device::WriteAt;
use crate::apfs::error::{ApfsError, Fault};
use crate::apfs::extents::{
    build_extent_map, count_view, fork_write, spans_of, write_through_extent_map,
};
use crate::apfs::text::{msg2, msg_str, text2, text_str};
use crate::apfs::volume::state::{ApfsVolume, VolumeView};
use vstd::slice::slice_subrange;
use vstd::prelude::*;

verus! {

impl VolumeView {
    /// The outcome of writing `data` through an extent map, and the volume
    /// afterwards.
    pub open spec fn write_spans(self, spans: Seq<(u64, u64, u64)>, offset: int, data: Seq<u8>) -> (
        Result<int, Fault>,
        VolumeView,
    ) {
        let (r, d) = fork_write(self.disk, self.block_size, spans, offset, data);
        (r, VolumeView { disk: d, ..self })
    }

    /// The outcome of overwriting bytes of the file that a path names, and the
    /// volume afterwards. What would go past the end of the file is left out.
    pub open spec fn overwrite(self, path: Seq<char>, offset: u64, data: Seq<u8>) -> (
        Result<int, Fault>,
        VolumeView,
    ) {
        if data.len() == 0 {
            (Ok(0), self)
        } else {
            match self.resolve(path) {
                Err(e) => (Err(e), self),
                Ok((_, inode)) => if mode_kind(inode.mode) != INODE_FILE_TYPE {
                    (
                        Err(
                            Fault::NotADirectory(
                                msg_str("write_at: "@, path, " is not a regular file"@),
                            ),
                        ),
                        self,
                    )
                } else if offset >= inode_size(inode) {
                    (
                        Err(
                            Fault::Internal(
                                msg2(
                                    "write_at: offset "@,
                                    offset as nat,
                                    " >= file_size "@,
                                    inode_size(inode) as nat,
                                    " (no extent allocation)"@,
                                ),
                            ),
                        ),
                        self,
                    )
                } else {
                    match self.extents(inode.private_id) {
                        Err(e) => (Err(e), self),
                        Ok(exts) => self.write_spans(
                            spans_of(exts, self.block_size),
                            offset as int,
                            data.take(
                                if data.len() <= inode_size(inode) - offset {
                                    data.len() as int
                                } else {
                                    inode_size(inode) - offset
                                },
                            ),
                        ),
                    }
                },
            }
        }
    }
}

impl<D: WriteAt> ApfsVolume<D> {
    /// Overwrite bytes of the file at `path`, from `offset` on, in its existing
    /// blocks. The write must start within the file; what would go past its
    /// end is left out. Neither are extents allocated nor is the inode
    /// changed; use [`Self::set_inode_times`] to refresh the times.
    ///
    /// Returns the number of bytes written. It is smaller than what fits the
    /// file only where a sparse hole (no extent covers a logical offset) ended
    /// the write.
    pub fn write_at(&mut self, path: &str, offset: u64, buf: &[u8]) -> (r: Result<u64, ApfsError>)
        requires
            old(self)@.wf(),
        ensures
            final(self).dev.reliable() == old(self).dev.reliable(),
            final(self)@.wf(),
            old(self).dev.reliable() || r is Ok ==> (count_view(r), final(self)@) == old(self)@.overwrite(
                path@,
                offset,
                buf@,
            ),
    {
        if buf.len() == 0 {
            return Ok(0);
        }
        let (_, inode) = self.resolve(path)?;
        if inode.kind() != INODE_FILE_TYPE {
            return Err(
                ApfsError::NotADirectory(text_str("write_at: ", path, " is not a regular file")),
            );
        }
        let file_size: u64 = inode.size();
        if offset >= file_size {
            return Err(
                ApfsError::Internal(
                    text2(
                        "write_at: offset ",
                        offset,
                        " >= file_size ",
                        file_size,
                        " (no extent allocation)",
                    ),
                ),
            );
        }
        let room: u64 = file_size - offset;
        let max: usize = if buf.len() as u64 <= room {
            buf.len()
        } else {
            room as usize
        };
        let exts = self.extents_of(inode.private_id)?;
        let map = build_extent_map(self.block_size, exts.as_slice());
        proof {
            assert(buf@.subrange(0, max as int) =~= buf@.take(max as int));
        }
        self.write_map(map.as_slice(), offset, slice_subrange(buf, 0, max))
    }

    fn write_map(&mut self, map: &[(u64, u64, u64)], offset: u64, buf: &[u8]) -> (r: Result<
        u64,
        ApfsError,
    >)
        requires
            old(self)@.wf(),
        ensures
            final(self).dev.reliable() == old(self).dev.reliable(),
            final(self)@.wf(),
            old(self).dev.reliable() || r is Ok ==> (count_view(r), final(self)@) == old(self)@.write_spans(
                map@,
                offset as int,
                buf@,
            ),
    {
        let ghost before = self@;
        let r = write_through_extent_map(&mut self.dev, self.block_size, map, offset, buf);
        assert(self@ =~= (VolumeView { disk: self.dev.bytes(), ..before }));
        r
    }

    /// Lower-level write driven by an extent map that the caller has.
    pub fn write_at_extents(&mut self, extent_map: &[(u64, u64, u64)], offset: u64, buf: &[u8]) -> (r:
        Result<u64, ApfsError>)
        requires
            old(self)@.wf(),
        ensures
            final(self).dev.reliable() == old(self).dev.reliable(),
            final(self)@.wf(),
            old(self).dev.reliable() || r is Ok ==> (count_view(r), final(self)@) == old(self)@.write_spans(
                extent_map@,
                offset as int,
                buf@,
            ),
    {
        self.write_map(extent_map, offset, buf)
    }
}

} // verus!
