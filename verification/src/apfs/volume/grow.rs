//! Making files longer.

use crate::apfs::btree::BTreeNode;
use crate::apfs::btree::node::NodeView;
use crate::apfs::btree::search::{found_seq, Found};
use crate::apfs::bytes::{bytes_u32, copy_range, push_bytes, rd_u64, zero_bytes, zeroed};
use crate::apfs::catalog::edit::{
    edit_inode, extent_key, file_extent_key, insert_dstream_id_record, insert_file_extent_record,
    insert_record, install_dstream, install_dstream_in_node, plain_key,
    set_inode_dstream_size_and_alloc_in_node, size_and_alloc_edit,
};
use crate::apfs::catalog::order::key_logical;
use crate::apfs::catalog::records::{
    extent_bytes, extent_length, extent_outcome, extent_with, inode_size, key_head, mode_kind,
    EXTENT_LENGTH_LIMIT, FileExtentVal, INODE_FILE_TYPE, InodeVal, J_TYPE_DSTREAM_ID,
    J_TYPE_FILE_EXTENT, J_TYPE_INODE,
};
use crate::apfs::device::{ReadAt, WriteAt};
use crate::apfs::error::{internal, plain, ApfsError, Fault, IoError};
use crate::apfs::extents::{
    build_extent_map, fork_write, lemma_total_length, raw_write, sat, spans_of, total_length,
    write_raw_at, write_through_extent_map,
};
use crate::apfs::object::agrees;
use crate::apfs::spaceman::SpaceManager;
use crate::apfs::spaceman::manager::{runs_view, space_outcome, SpaceView};
use crate::apfs::text::{msg2, msg_str, text2, text_str};
use crate::apfs::volume::clock::now_nanos;
use crate::apfs::volume::leaves::{
    ascending, changed, comes_of, leaves_outcome, leaves_view, lemma_put_leaf, put_leaf,
    touched_outcome,
};
use crate::apfs::volume::state::{ApfsVolume, VolumeView};
use vstd::prelude::*;

verus! {

/// The first multiple of the block size that is not below `n`.
pub open spec fn round_up(n: u64, block_size: u32) -> int {
    (n + block_size - 1) / (block_size as int) * block_size
}

/// One block of a payload from position `off` on, filled up with zeros.
pub open spec fn padded(payload: Seq<u8>, off: int, block_size: u32) -> Seq<u8> {
    Seq::new(
        block_size as nat,
        |i: int|
            if 0 <= off + i < payload.len() {
                payload[off + i]
            } else {
                0
            },
    )
}

/// The outcome of writing the blocks `j` to `n` of a run that starts at block
/// `start`, the first of them with the payload from `off` on, and the device
/// afterwards.
pub open spec fn write_run(
    disk: Seq<u8>,
    block_size: u32,
    start: u64,
    j: int,
    n: int,
    payload: Seq<u8>,
    off: int,
) -> (Result<(), Fault>, Seq<u8>)
    decreases n - j,
{
    if j >= n {
        (Ok(()), disk)
    } else if (start + j) * block_size > u64::MAX {
        (Err(Fault::Io(IoError::UnexpectedEof)), disk)
    } else {
        match raw_write(
            disk,
            block_size,
            (start + j) * block_size,
            padded(payload, off, block_size),
        ) {
            (Err(e), d) => (Err(e), d),
            (Ok(_), d) => write_run(
                d,
                block_size,
                start,
                j + 1,
                n,
                payload,
                off + block_size,
            ),
        }
    }
}

/// The outcome of writing the payload from `off` on into the runs from `i` on,
/// and the device afterwards.
pub open spec fn write_runs(
    disk: Seq<u8>,
    block_size: u32,
    runs: Seq<(u64, u64)>,
    i: int,
    payload: Seq<u8>,
    off: int,
) -> (Result<(), Fault>, Seq<u8>)
    decreases runs.len() - i,
{
    if i >= runs.len() || i < 0 {
        (Ok(()), disk)
    } else {
        match write_run(disk, block_size, runs[i].0, 0, runs[i].1 as int, payload, off) {
            (Err(e), d) => (Err(e), d),
            (Ok(_), d) => write_runs(
                d,
                block_size,
                runs,
                i + 1,
                payload,
                off + runs[i].1 * block_size,
            ),
        }
    }
}

/// `n` of the bytes to be added, from the `k`th on: of the data, or zeros.
pub open spec fn added_part(data: Option<Seq<u8>>, k: int, n: int) -> Seq<u8> {
    match data {
        Some(d) => d.subrange(k, k + n),
        None => zero_bytes(n as nat),
    }
}

/// What goes to new blocks: as many zeros as the extents of the file fell short
/// of its size, and what follows the first `t` bytes of the data.
pub open spec fn rest_bytes(data: Option<Seq<u8>>, lead: int, t: int) -> Seq<u8> {
    match data {
        Some(d) => zero_bytes(lead as nat) + d.skip(t),
        None => seq![],
    }
}

/// The outcome of writing the bytes from the `k`th to the `t`th that are added
/// to a file of `cur` bytes through its spans, a block's length at a time, and
/// the device afterwards.
pub open spec fn fill_through(
    disk: Seq<u8>,
    block_size: u32,
    spans: Seq<(u64, u64, u64)>,
    cur: int,
    data: Option<Seq<u8>>,
    k: int,
    t: int,
) -> (Result<(), Fault>, Seq<u8>)
    decreases t - k,
{
    if k >= t || block_size == 0 {
        (Ok(()), disk)
    } else {
        let n = if t - k <= block_size {
            t - k
        } else {
            block_size as int
        };
        match fork_write(disk, block_size, spans, cur + k, added_part(data, k, n)) {
            (Err(e), d) => (Err(e), d),
            (Ok(c), d) => if c < n {
                (Err(Fault::Internal("no extent covers the end of the file"@)), d)
            } else {
                fill_through(d, block_size, spans, cur, data, k + n, t)
            },
        }
    }
}

/// The logical position behind the extents that records hold, from record `i`
/// on.
pub open spec fn records_end(found: Seq<Found>, i: int) -> u64
    decreases found.len() - i,
{
    if i >= found.len() || i < 0 {
        0
    } else {
        let e = record_end(found[i]);
        if e >= records_end(found, i + 1) {
            e
        } else {
            records_end(found, i + 1)
        }
    }
}

/// The logical position behind the extent that a record holds. No other extent
/// has its key at this position or past it, unless it lies further behind.
pub open spec fn record_end(f: Found) -> u64 {
    let len = match extent_outcome(f.1) {
        Ok(x) => extent_length(x) as int,
        Err(_) => 0,
    };
    sat(
        key_logical(f.0) + if len > 0 {
            len
        } else {
            1
        },
    )
}

/// How many of `size` bytes lie in the first `have`.
pub open spec fn within_first(size: u64, have: u64) -> int {
    if size <= have {
        size as int
    } else {
        have as int
    }
}

/// How many new blocks a file of `size` bytes takes when there is room for
/// `have`.
pub open spec fn blocks_short(size: u64, have: u64, block_size: u32) -> int {
    (size - within_first(size, have) + block_size - 1) / (block_size as int)
}

impl VolumeView {
    /// The bitmaps, loaded if they are not yet.
    pub open spec fn space_loaded(self) -> Result<SpaceView, Fault> {
        match self.space {
            Some(m) => Ok(m),
            None => if self.spaceman_paddr == 0 {
                Err(Fault::Internal("spaceman_paddr unknown; cannot allocate"@))
            } else {
                space_outcome(self.disk, self.spaceman_paddr, self.block_size)
            },
        }
    }

    /// The outcome of reserving `n` blocks, and the volume afterwards.
    pub open spec fn reserve(self, n: u64) -> (Result<Seq<(u64, u64)>, Fault>, VolumeView) {
        if n == 0 {
            (Ok(seq![]), self)
        } else {
            match self.space_loaded() {
                Err(e) => (Err(e), self),
                Ok(m) => (
                    m.alloc_blocks(n).0,
                    VolumeView { space: Some(m.alloc_blocks(n).1), ..self },
                ),
            }
        }
    }

    /// The logical position behind the extents of a data stream.
    pub open spec fn stream_end(self, private_id: u64) -> Result<u64, Fault> {
        match self.hits(private_id, J_TYPE_FILE_EXTENT) {
            Err(e) => Err(e),
            Ok(found) => Ok(records_end(found, 0)),
        }
    }

    /// The outcome of writing the first `t` bytes that are added to a file of
    /// `cur` bytes into the extents that it has, and the volume afterwards.
    pub open spec fn fill_tail(
        self,
        exts: Seq<FileExtentVal>,
        cur: u64,
        t: int,
        data: Option<Seq<u8>>,
    ) -> (Result<(), Fault>, VolumeView) {
        let (r, d) = fill_through(
            self.disk,
            self.block_size,
            spans_of(exts, self.block_size),
            cur as int,
            data,
            0,
            t,
        );
        (r, VolumeView { disk: d, ..self })
    }

    /// The touched leaves after extents were put in for the runs from `i` on,
    /// the first of them at logical position `log`.
    pub open spec fn put_extents(
        self,
        s: Seq<(u64, NodeView)>,
        runs: Seq<(u64, u64)>,
        i: int,
        oid: u64,
        log: int,
    ) -> Result<Seq<(u64, NodeView)>, Fault>
        decreases runs.len() - i,
    {
        if i >= runs.len() || i < 0 {
            Ok(s)
        } else {
            let length = runs[i].1 * self.block_size;
            if length >= EXTENT_LENGTH_LIMIT || log + length > u64::MAX {
                Err(Fault::Internal("extent is too long"@))
            } else {
                match self.key_leaf(extent_key(oid, log as u64)) {
                    Err(e) => Err(e),
                    Ok(p) => match self.change(
                        s,
                        p,
                        |n: NodeView|
                            insert_record(
                                n,
                                extent_key(oid, log as u64),
                                extent_bytes(extent_with(length as u64, 0, runs[i].0, 0)),
                            ),
                    ) {
                        (Err(e), _) => Err(e),
                        (Ok(_), t) => self.put_extents(t, runs, i + 1, oid, log + length),
                    },
                }
            }
        }
    }

    /// The touched leaves after the dstream field of the inode of `oid`, which
    /// lies in the leaf at `p`, was updated, or installed where there was none.
    pub open spec fn put_size_at(
        self,
        s: Seq<(u64, NodeView)>,
        p: u64,
        oid: u64,
        size: u64,
        alloced: u64,
        now: i64,
    ) -> Result<Seq<(u64, NodeView)>, Fault> {
        match self.load(s, p) {
            (Err(e), _) => Err(e),
            (Ok(n), t) => {
                let (r, m) = edit_inode(
                    n,
                    oid,
                    "set_inode_dstream_size_and_alloc_in_node: target is not a leaf"@,
                    size_and_alloc_edit(oid, size, alloced),
                );
                match r {
                    Ok(_) => Ok(put_leaf(t, p, m)),
                    Err(Fault::BadCatalog(_)) => self.put_stream(
                        put_leaf(t, p, m),
                        p,
                        oid,
                        size,
                        alloced,
                        now,
                    ),
                    Err(e) => Err(e),
                }
            },
        }
    }

    /// The touched leaves after the inode of `oid`, which lies in the leaf at
    /// `p`, was given a dstream field.
    pub open spec fn put_stream(
        self,
        s: Seq<(u64, NodeView)>,
        p: u64,
        oid: u64,
        size: u64,
        alloced: u64,
        now: i64,
    ) -> Result<Seq<(u64, NodeView)>, Fault> {
        changed(
            self.change(s, p, |n: NodeView| install_dstream(n, oid, size, alloced, now)),
        )
    }

    /// The touched leaves after the dstream field of the inode of `oid` was
    /// updated, or installed where there was none.
    pub open spec fn put_size(
        self,
        s: Seq<(u64, NodeView)>,
        oid: u64,
        size: u64,
        alloced: u64,
        now: i64,
    ) -> Result<Seq<(u64, NodeView)>, Fault> {
        match self.record_leaf(oid, J_TYPE_INODE) {
            Err(e) => Err(e),
            Ok(p) => self.put_size_at(s, p, oid, size, alloced, now),
        }
    }

    /// The touched leaves after `oid` has a data stream record.
    pub open spec fn put_stream_id(self, s: Seq<(u64, NodeView)>, oid: u64) -> Result<
        Seq<(u64, NodeView)>,
        Fault,
    > {
        match self.record_leaf(oid, J_TYPE_DSTREAM_ID) {
            Ok(_) => Ok(s),
            Err(Fault::Io(e)) => Err(Fault::Io(e)),
            Err(_) => match self.key_leaf(key_head(oid, J_TYPE_DSTREAM_ID)) {
                Err(e) => Err(e),
                Ok(p) => changed(
                    self.change(
                        s,
                        p,
                        |n: NodeView|
                            insert_record(n, key_head(oid, J_TYPE_DSTREAM_ID), bytes_u32(1)),
                    ),
                ),
            },
        }
    }

    /// The touched leaves after the records of a longer file were put in: the
    /// extents of its data stream from logical position `log` on, and its size.
    pub open spec fn grown(
        self,
        oid: u64,
        private_id: u64,
        runs: Seq<(u64, u64)>,
        log: int,
        new_size: u64,
        now: i64,
    ) -> Result<Seq<(u64, NodeView)>, Fault> {
        match self.put_extents(seq![], runs, 0, private_id, log) {
            Err(e) => Err(e),
            Ok(s1) => match self.put_size(
                s1,
                oid,
                new_size,
                round_up(new_size, self.block_size) as u64,
                now,
            ) {
                Err(e) => Err(e),
                Ok(s2) => self.put_stream_id(s2, private_id),
            },
        }
    }

    /// The outcome of making a file longer when the blocks for it are reserved,
    /// and the volume afterwards. The first `t` bytes go to extents that are
    /// there; `lead` bytes before them had none.
    #[verifier::opaque]
    pub open spec fn grow_into(
        self,
        runs: Seq<(u64, u64)>,
        oid: u64,
        inode: InodeVal,
        exts: Seq<FileExtentVal>,
        log: u64,
        new_size: u64,
        lead: int,
        t: int,
        data: Option<Seq<u8>>,
        now: i64,
    ) -> (Result<(), Fault>, VolumeView) {
        match self.fill_tail(exts, inode_size(inode), t, data) {
            (Err(e), v) => (Err(e), v),
            (Ok(_), v2) => match write_runs(
                v2.disk,
                v2.block_size,
                runs,
                0,
                rest_bytes(data, lead, t),
                0,
            ) {
                (Err(e), d) => (Err(e), VolumeView { disk: d, ..v2 }),
                (Ok(_), d) => {
                    let v3 = VolumeView { disk: d, ..v2 };
                    v3.finish(
                        v3.grown(oid, inode.private_id, runs, log as int, new_size, now),
                    )
                },
            },
        }
    }

    /// The outcome of making the file `oid` longer, and the volume afterwards.
    /// The new bytes are the data, or zeros. They go to the extents that the
    /// file has, as far as those reach past its size, and to new blocks from
    /// there on.
    #[verifier::opaque]
    pub open spec fn grow_to(
        self,
        oid: u64,
        inode: InodeVal,
        new_size: u64,
        data: Option<Seq<u8>>,
        now: i64,
    ) -> (Result<(), Fault>, VolumeView) {
        let cur = inode_size(inode);
        if new_size <= cur {
            (Ok(()), self)
        } else if round_up(new_size, self.block_size) > u64::MAX {
            (Err(Fault::Internal("file size overflows"@)), self)
        } else {
            match self.extents(inode.private_id) {
                Err(e) => (Err(e), self),
                Ok(exts) => match self.stream_end(inode.private_id) {
                    Err(e) => (Err(e), self),
                    Ok(log) => {
                        let have = sat(total_length(exts, 0));
                        let base = within_first(cur, have);
                        match self.reserve(
                            blocks_short(new_size, have, self.block_size) as u64,
                        ) {
                            (Err(e), v) => (Err(e), v),
                            (Ok(runs), v) => v.grow_into(
                                runs,
                                oid,
                                inode,
                                exts,
                                log,
                                new_size,
                                cur - base,
                                within_first(new_size, have) - base,
                                data,
                                now,
                            ),
                        }
                    },
                },
            }
        }
    }

    /// The outcome of appending `data` to the file that a path names, and the
    /// volume afterwards.
    pub open spec fn append(self, path: Seq<char>, data: Seq<u8>, now: i64) -> (
        Result<u64, Fault>,
        VolumeView,
    ) {
        if data.len() == 0 {
            (Ok(0), self)
        } else {
            match self.resolve(path) {
                Err(e) => (Err(e), self),
                Ok((oid, inode)) => if mode_kind(inode.mode) != INODE_FILE_TYPE {
                    (
                        Err(
                            Fault::NotADirectory(
                                msg_str("append_data: "@, path, " is not a regular file"@),
                            ),
                        ),
                        self,
                    )
                } else if inode_size(inode) + data.len() > u64::MAX {
                    (Err(Fault::Internal("file size overflows"@)), self)
                } else {
                    match self.grow_to(
                        oid,
                        inode,
                        (inode_size(inode) + data.len()) as u64,
                        Some(data),
                        now,
                    ) {
                        (Err(e), v) => (Err(e), v),
                        (Ok(_), v) => (Ok(data.len() as u64), v),
                    }
                },
            }
        }
    }

    /// The outcome of growing the file that a path names, and the volume
    /// afterwards.
    pub open spec fn grow(self, path: Seq<char>, new_size: u64, now: i64) -> (
        Result<(), Fault>,
        VolumeView,
    ) {
        match self.resolve(path) {
            Err(e) => (Err(e), self),
            Ok((oid, inode)) => if mode_kind(inode.mode) != INODE_FILE_TYPE {
                (
                    Err(
                        Fault::NotADirectory(
                            msg_str("grow_file: "@, path, " is not a regular file"@),
                        ),
                    ),
                    self,
                )
            } else if new_size <= inode_size(inode) {
                (
                    Err(
                        Fault::Internal(
                            msg2(
                                "grow_file: new_size "@,
                                new_size as nat,
                                " <= current "@,
                                inode_size(inode) as nat,
                                ""@,
                            ),
                        ),
                    ),
                    self,
                )
            } else {
                self.grow_to(oid, inode, new_size, None, now)
            },
        }
    }
}

/// Data to be added, taken by view.
pub open spec fn data_view(d: Option<&[u8]>) -> Option<Seq<u8>> {
    match d {
        Some(d) => Some(d@),
        None => None,
    }
}

/// The block at `off` of `lead` zeros and the payload behind them.
fn block_of(lead: u64, payload: &[u8], off: u64, block_size: u32) -> (b: Vec<u8>)
    ensures
        b@ == padded(zero_bytes(lead as nat) + payload@, off as int, block_size),
{
    let bs: u64 = block_size as u64;
    let zeros: u64 = if off >= lead {
        0
    } else if lead - off <= bs {
        lead - off
    } else {
        bs
    };
    let from: u64 = if off >= lead {
        off - lead
    } else {
        0
    };
    let len: u64 = payload.len() as u64;
    let have: u64 = if from >= len {
        0
    } else if len - from <= bs - zeros {
        len - from
    } else {
        bs - zeros
    };
    let mut b: Vec<u8> = zeroed(zeros as usize);
    if have > 0 {
        let part = copy_range(payload, from as usize, (from + have) as usize);
        push_bytes(&mut b, part.as_slice());
    }
    let fill = zeroed((bs - zeros - have) as usize);
    push_bytes(&mut b, fill.as_slice());
    assert(b@ =~= padded(zero_bytes(lead as nat) + payload@, off as int, block_size));
    b
}

/// Past the end of the payload all blocks are zeros.
proof fn lemma_run_past(
    disk: Seq<u8>,
    block_size: u32,
    start: u64,
    j: int,
    n: int,
    payload: Seq<u8>,
    a: int,
    b: int,
)
    requires
        a >= payload.len(),
        b >= payload.len(),
    ensures
        write_run(disk, block_size, start, j, n, payload, a) == write_run(
            disk,
            block_size,
            start,
            j,
            n,
            payload,
            b,
        ),
    decreases n - j,
{
    if j < n && (start + j) * block_size <= u64::MAX {
        assert(padded(payload, a, block_size) =~= padded(payload, b, block_size));
        let d = raw_write(
            disk,
            block_size,
            (start + j) * block_size,
            padded(payload, a, block_size),
        ).1;
        lemma_run_past(
            d,
            block_size,
            start,
            j + 1,
            n,
            payload,
            a + block_size,
            b + block_size,
        );
    }
}

proof fn lemma_runs_past(
    disk: Seq<u8>,
    block_size: u32,
    runs: Seq<(u64, u64)>,
    i: int,
    payload: Seq<u8>,
    a: int,
    b: int,
)
    requires
        a >= payload.len(),
        b >= payload.len(),
    ensures
        write_runs(disk, block_size, runs, i, payload, a) == write_runs(
            disk,
            block_size,
            runs,
            i,
            payload,
            b,
        ),
    decreases runs.len() - i,
{
    if 0 <= i < runs.len() {
        lemma_run_past(disk, block_size, runs[i].0, 0, runs[i].1 as int, payload, a, b);
        let d = write_run(disk, block_size, runs[i].0, 0, runs[i].1 as int, payload, a).1;
        assert(runs[i].1 * block_size >= 0) by (nonlinear_arith);
        lemma_runs_past(
            d,
            block_size,
            runs,
            i + 1,
            payload,
            a + runs[i].1 * block_size,
            b + runs[i].1 * block_size,
        );
    }
}

fn write_blocks<W: WriteAt>(
    dev: &mut W,
    block_size: u32,
    start: u64,
    n: u64,
    lead: u64,
    payload: &[u8],
    off: u64,
) -> (r: Result<(), ApfsError>)
    requires
        block_size > 0,
        lead + payload.len() <= u64::MAX,
    ensures
        final(dev).reliable() == old(dev).reliable(),
        final(dev).bytes().len() == old(dev).bytes().len(),
        old(dev).reliable() || r is Ok ==> (plain(r), final(dev).bytes()) == write_run(
            old(dev).bytes(),
            block_size,
            start,
            0,
            n as int,
            zero_bytes(lead as nat) + payload@,
            off as int,
        ),
{
    let ghost goal = write_run(
        dev.bytes(),
        block_size,
        start,
        0,
        n as int,
        zero_bytes(lead as nat) + payload@,
        off as int,
    );
    let mut j: u64 = 0;
    let mut at: u64 = off;
    while j < n
        invariant
            j <= n,
            block_size > 0,
            lead + payload@.len() <= u64::MAX,
            dev.reliable() == old(dev).reliable(),
            dev.bytes().len() == old(dev).bytes().len(),
            goal == write_run(
                old(dev).bytes(),
                block_size,
                start,
                0,
                n as int,
                zero_bytes(lead as nat) + payload@,
                off as int,
            ),
            goal == write_run(
                dev.bytes(),
                block_size,
                start,
                j as int,
                n as int,
                zero_bytes(lead as nat) + payload@,
                at as int,
            ),
        decreases n - j,
    {
        let block: u128 = start as u128 + j as u128;
        assert(block * block_size <= 0x2_0000_0000_0000_0000 * 0x1_0000_0000) by (nonlinear_arith)
            requires
                block <= 0x2_0000_0000_0000_0000,
                block_size <= 0x1_0000_0000,
        ;
        let phys: u128 = block * block_size as u128;
        if phys > u64::MAX as u128 {
            return Err(ApfsError::Io(IoError::UnexpectedEof));
        }
        let b = block_of(lead, payload, at, block_size);
        write_raw_at(dev, block_size, phys as u64, b.as_slice())?;
        let next: u64 = match at.checked_add(block_size as u64) {
            Some(x) => x,
            None => u64::MAX,
        };
        proof {
            if at + block_size > u64::MAX {
                lemma_run_past(
                    dev.bytes(),
                    block_size,
                    start,
                    j + 1,
                    n as int,
                    zero_bytes(lead as nat) + payload@,
                    at + block_size,
                    next as int,
                );
            }
        }
        at = next;
        j += 1;
    }
    Ok(())
}

fn write_all_runs<W: WriteAt>(
    dev: &mut W,
    block_size: u32,
    runs: &Vec<(u64, u64)>,
    lead: u64,
    payload: &[u8],
) -> (r: Result<(), ApfsError>)
    requires
        block_size > 0,
        lead + payload.len() <= u64::MAX,
    ensures
        final(dev).reliable() == old(dev).reliable(),
        final(dev).bytes().len() == old(dev).bytes().len(),
        old(dev).reliable() || r is Ok ==> (plain(r), final(dev).bytes()) == write_runs(
            old(dev).bytes(),
            block_size,
            runs@,
            0,
            zero_bytes(lead as nat) + payload@,
            0,
        ),
{
    let ghost all = zero_bytes(lead as nat) + payload@;
    let ghost goal = write_runs(dev.bytes(), block_size, runs@, 0, all, 0);
    let mut i: usize = 0;
    let mut at: u64 = 0;
    while i < runs.len()
        invariant
            i <= runs.len(),
            block_size > 0,
            lead + payload@.len() <= u64::MAX,
            dev.reliable() == old(dev).reliable(),
            dev.bytes().len() == old(dev).bytes().len(),
            all == zero_bytes(lead as nat) + payload@,
            goal == write_runs(old(dev).bytes(), block_size, runs@, 0, all, 0),
            goal == write_runs(dev.bytes(), block_size, runs@, i as int, all, at as int),
        decreases runs.len() - i,
    {
        let (start, n) = runs[i];
        write_blocks(dev, block_size, start, n, lead, payload, at)?;
        assert(n * block_size <= 0x1_0000_0000_0000_0000 * 0x1_0000_0000 && n * block_size >= 0)
            by (nonlinear_arith)
            requires
                n <= 0x1_0000_0000_0000_0000,
                block_size <= 0x1_0000_0000,
        ;
        let sum: u128 = at as u128 + n as u128 * block_size as u128;
        let next: u64 = if sum <= u64::MAX as u128 {
            sum as u64
        } else {
            u64::MAX
        };
        proof {
            if sum > u64::MAX {
                lemma_runs_past(
                    dev.bytes(),
                    block_size,
                    runs@,
                    i + 1,
                    all,
                    sum as int,
                    next as int,
                );
            }
        }
        at = next;
        i += 1;
    }
    Ok(())
}

impl<D: ReadAt> ApfsVolume<D> {
    fn add_extent(
        &self,
        touched: &mut Vec<(u64, BTreeNode)>,
        oid: u64,
        log: u64,
        length: u64,
        start: u64,
    ) -> (r: Result<(), ApfsError>)
        requires
            ascending(leaves_view(old(touched)@)),
            length < EXTENT_LENGTH_LIMIT,
        ensures
            ascending(leaves_view(final(touched)@)),
            agrees(
                touched_outcome(r, final(touched)@),
                (match self@.key_leaf(
                    extent_key(oid, log),
                ) {
                    Err(e) => Err(e),
                    Ok(p) => changed(
                        self@.change(
                            leaves_view(old(touched)@),
                            p,
                            |n: NodeView|
                                insert_record(
                                    n,
                                    extent_key(oid, log),
                                    extent_bytes(extent_with(length, 0, start, 0)),
                                ),
                        ),
                    ),
                }),
                self.dev.reliable(),
            ),
    {
        let key = file_extent_key(oid, log);
        let leaf: u64 = self.locate_leaf_for_key(key.as_slice())?;
        let k: usize = self.load_leaf(touched, leaf)?;
        let ghost loaded = leaves_view(touched@);
        let r = insert_file_extent_record(&mut touched[k].1, oid, log, length, start);
        proof {
            lemma_put_leaf(loaded, leaf, touched@[k as int].1@);
            assert(leaves_view(touched@) =~= loaded.update(
                k as int,
                (leaf, touched@[k as int].1@),
            ));
        }
        r?;
        Ok(())
    }

    fn add_extents(
        &self,
        touched: &mut Vec<(u64, BTreeNode)>,
        runs: &Vec<(u64, u64)>,
        oid: u64,
        log: u64,
    ) -> (r: Result<(), ApfsError>)
        requires
            ascending(leaves_view(old(touched)@)),
        ensures
            ascending(leaves_view(final(touched)@)),
            agrees(
                touched_outcome(r, final(touched)@),
                self@.put_extents(leaves_view(old(touched)@), runs@, 0, oid, log as int),
                self.dev.reliable(),
            ),
    {
        let ghost goal = self@.put_extents(leaves_view(touched@), runs@, 0, oid, log as int);
        let mut at: u64 = log;
        let mut i: usize = 0;
        while i < runs.len()
            invariant
                i <= runs.len(),
                ascending(leaves_view(touched@)),
                goal == self@.put_extents(leaves_view(old(touched)@), runs@, 0, oid, log as int),
                goal == self@.put_extents(
                    leaves_view(touched@),
                    runs@,
                    i as int,
                    oid,
                    at as int,
                ),
            decreases runs.len() - i,
        {
            let (start, n) = runs[i];
            assert(n * self.block_size <= 0x1_0000_0000_0000_0000 * 0x1_0000_0000 && n
                * self.block_size >= 0) by (nonlinear_arith)
                requires
                    n <= 0x1_0000_0000_0000_0000,
                    self.block_size <= 0x1_0000_0000,
            ;
            let length: u128 = n as u128 * self.block_size as u128;
            if length >= EXTENT_LENGTH_LIMIT as u128 || at as u128 + length > u64::MAX as u128 {
                return Err(internal("extent is too long"));
            }
            self.add_extent(touched, oid, at, length as u64, start)?;
            at = at + length as u64;
            i += 1;
        }
        Ok(())
    }

    fn add_size(
        &self,
        touched: &mut Vec<(u64, BTreeNode)>,
        oid: u64,
        size: u64,
        alloced: u64,
        now: i64,
    ) -> (r: Result<(), ApfsError>)
        requires
            ascending(leaves_view(old(touched)@)),
        ensures
            ascending(leaves_view(final(touched)@)),
            agrees(
                touched_outcome(r, final(touched)@),
                self@.put_size(leaves_view(old(touched)@), oid, size, alloced, now),
                self.dev.reliable(),
            ),
    {
        let leaf: u64 = self.locate_record_leaf(oid, J_TYPE_INODE)?;
        self.add_size_at(touched, leaf, oid, size, alloced, now)
    }

    fn add_size_at(
        &self,
        touched: &mut Vec<(u64, BTreeNode)>,
        leaf: u64,
        oid: u64,
        size: u64,
        alloced: u64,
        now: i64,
    ) -> (r: Result<(), ApfsError>)
        requires
            ascending(leaves_view(old(touched)@)),
        ensures
            ascending(leaves_view(final(touched)@)),
            agrees(
                touched_outcome(r, final(touched)@),
                self@.put_size_at(leaves_view(old(touched)@), leaf, oid, size, alloced, now),
                self.dev.reliable(),
            ),
    {
        let k: usize = self.load_leaf(touched, leaf)?;
        let ghost loaded = leaves_view(touched@);
        let r = set_inode_dstream_size_and_alloc_in_node(&mut touched[k].1, oid, size, alloced);
        let ghost tried = leaves_view(touched@);
        proof {
            lemma_put_leaf(loaded, leaf, touched@[k as int].1@);
            assert(tried =~= loaded.update(k as int, (leaf, touched@[k as int].1@)));
        }
        match r {
            Ok(_) => Ok(()),
            Err(ApfsError::BadCatalog(_)) => self.install_size(
                touched,
                leaf,
                oid,
                size,
                alloced,
                now,
            ),
            Err(e) => Err(e),
        }
    }

    fn install_size(
        &self,
        touched: &mut Vec<(u64, BTreeNode)>,
        leaf: u64,
        oid: u64,
        size: u64,
        alloced: u64,
        now: i64,
    ) -> (r: Result<(), ApfsError>)
        requires
            ascending(leaves_view(old(touched)@)),
        ensures
            ascending(leaves_view(final(touched)@)),
            agrees(
                touched_outcome(r, final(touched)@),
                self@.put_stream(leaves_view(old(touched)@), leaf, oid, size, alloced, now),
                self.dev.reliable(),
            ),
    {
        let k: usize = self.load_leaf(touched, leaf)?;
        let ghost loaded = leaves_view(touched@);
        let r = install_dstream_in_node(&mut touched[k].1, oid, size, alloced, now);
        proof {
            lemma_put_leaf(loaded, leaf, touched@[k as int].1@);
            assert(leaves_view(touched@) =~= loaded.update(
                k as int,
                (leaf, touched@[k as int].1@),
            ));
        }
        r?;
        Ok(())
    }

    fn add_stream_id(&self, touched: &mut Vec<(u64, BTreeNode)>, oid: u64) -> (r: Result<
        (),
        ApfsError,
    >)
        requires
            ascending(leaves_view(old(touched)@)),
        ensures
            ascending(leaves_view(final(touched)@)),
            agrees(
                touched_outcome(r, final(touched)@),
                self@.put_stream_id(leaves_view(old(touched)@), oid),
                self.dev.reliable(),
            ),
    {
        match self.locate_record_leaf(oid, J_TYPE_DSTREAM_ID) {
            Ok(_) => {
                return Ok(());
            },
            Err(ApfsError::Io(e)) => {
                return Err(ApfsError::Io(e));
            },
            Err(_) => {},
        }
        let key = plain_key(oid, J_TYPE_DSTREAM_ID);
        let leaf: u64 = self.locate_leaf_for_key(key.as_slice())?;
        let k: usize = self.load_leaf(touched, leaf)?;
        let ghost loaded = leaves_view(touched@);
        let r = insert_dstream_id_record(&mut touched[k].1, oid, 1);
        proof {
            lemma_put_leaf(loaded, leaf, touched@[k as int].1@);
            assert(leaves_view(touched@) =~= loaded.update(
                k as int,
                (leaf, touched@[k as int].1@),
            ));
        }
        r?;
        Ok(())
    }

    /// The leaves that making a file longer touches.
    fn grow_leaves(
        &self,
        oid: u64,
        private_id: u64,
        runs: &Vec<(u64, u64)>,
        log: u64,
        new_size: u64,
        new_eof: u64,
        now: i64,
    ) -> (r: Result<Vec<(u64, BTreeNode)>, ApfsError>)
        requires
            new_eof == round_up(new_size, self.block_size),
        ensures
            r matches Ok(t) ==> ascending(leaves_view(t@)),
            agrees(
                leaves_outcome(r),
                self@.grown(oid, private_id, runs@, log as int, new_size, now),
                self.dev.reliable(),
            ),
    {
        let mut touched: Vec<(u64, BTreeNode)> = Vec::new();
        assert(leaves_view(touched@) =~= seq![]);
        self.add_extents(&mut touched, runs, private_id, log)?;
        self.add_size(&mut touched, oid, new_size, new_eof, now)?;
        self.add_stream_id(&mut touched, private_id)?;
        Ok(touched)
    }
}

fn rounded(n: u64, block_size: u32) -> (r: u128)
    requires
        block_size > 0,
    ensures
        r == round_up(n, block_size),
        r >= n,
        r < n + block_size,
{
    let bs: u128 = block_size as u128;
    let blocks: u128 = (n as u128 + bs - 1) / bs;
    proof {
        let x = n as int + block_size as int - 1;
        vstd::arithmetic::div_mod::lemma_fundamental_div_mod(x, block_size as int);
        vstd::arithmetic::div_mod::lemma_mod_bound(x, block_size as int);
        assert(block_size as int * (x / (block_size as int)) == x / (block_size as int)
            * block_size as int) by (nonlinear_arith);
    }
    blocks * bs
}

impl<D: ReadAt> ApfsVolume<D> {
    /// The logical position behind the extents of a data stream.
    fn find_stream_end(&self, private_id: u64) -> (r: Result<u64, ApfsError>)
        ensures
            agrees(plain(r), self@.stream_end(private_id), self.dev.reliable()),
    {
        let entries = self.find_records(private_id, J_TYPE_FILE_EXTENT)?;
        let ghost found = found_seq(entries@);
        let mut end: u64 = 0;
        let mut i: usize = 0;
        while i < entries.len()
            invariant
                i <= entries.len(),
                found == found_seq(entries@),
                records_end(found, 0) == (if end >= records_end(found, i as int) {
                    end
                } else {
                    records_end(found, i as int)
                }),
            decreases entries.len() - i,
        {
            let (k, v, _) = &entries[i];
            assert(found[i as int] == (k@, v@, found[i as int].2));
            let e: u64 = end_of_record(k.as_slice(), v.as_slice());
            assert(e == record_end((k@, v@, found[i as int].2)));
            if e > end {
                end = e;
            }
            i += 1;
        }
        Ok(end)
    }
}

impl<D: WriteAt> ApfsVolume<D> {
    /// Load the bitmaps if they are not yet loaded.
    fn ensure_spaceman(&mut self) -> (r: Result<(), ApfsError>)
        requires
            old(self)@.wf(),
        ensures
            final(self).dev == old(self).dev,
            final(self).block_size == old(self).block_size,
            final(self)@.wf(),
            r is Ok ==> final(self)@.space is Some,
            old(self).dev.reliable() || r is Ok ==> match old(self)@.space_loaded() {
                Err(e) => plain(r) == Err::<(), Fault>(e) && final(self)@ == old(self)@,
                Ok(m) => r is Ok && final(self)@ == (VolumeView { space: Some(m), ..old(self)@ }),
            },
    {
        let ghost before = self@;
        if self.spaceman.is_some() {
            assert(self@ =~= (VolumeView { space: before.space, ..before }));
            return Ok(());
        }
        if self.spaceman_paddr == 0 {
            return Err(internal("spaceman_paddr unknown; cannot allocate"));
        }
        let sm = SpaceManager::open(&self.dev, self.spaceman_paddr, self.block_size)?;
        self.spaceman = Some(sm);
        assert(self@ =~= (VolumeView { space: Some(sm@), ..before }));
        Ok(())
    }

    /// Allocate `count` new blocks. The bitmaps are updated in memory only:
    /// after the next mount the blocks are free again on disk.
    fn alloc_blocks(&mut self, count: u64) -> (r: Result<Vec<(u64, u64)>, ApfsError>)
        requires
            old(self)@.wf(),
        ensures
            final(self).dev == old(self).dev,
            final(self).block_size == old(self).block_size,
            final(self)@.wf(),
            old(self).dev.reliable() || r is Ok ==> (runs_view(r), final(self)@) == old(
                self,
            )@.reserve(count),
    {
        if count == 0 {
            let none: Vec<(u64, u64)> = Vec::new();
            assert(none@ =~= seq![]);
            return Ok(none);
        }
        self.ensure_spaceman()?;
        let ghost before = self@;
        match &mut self.spaceman {
            Some(m) => {
                let r = m.alloc_blocks(count);
                r
            },
            None => Err(internal("spaceman_paddr unknown; cannot allocate")),
        }
    }

    /// Write the first bytes that are added to a file into the extents that it
    /// has.
    fn write_tail(
        &mut self,
        exts: &Vec<FileExtentVal>,
        cur: u64,
        t: u64,
        data: Option<&[u8]>,
    ) -> (r: Result<(), ApfsError>)
        requires
            old(self)@.wf(),
            cur + t <= u64::MAX,
            data matches Some(d) ==> t <= d@.len(),
        ensures
            final(self).dev.reliable() == old(self).dev.reliable(),
            final(self).block_size == old(self).block_size,
            final(self)@.wf(),
            old(self).dev.reliable() || r is Ok ==> (plain(r), final(self)@) == old(
                self,
            )@.fill_tail(exts@, cur, t as int, data_view(data)),
    {
        let map = build_extent_map(self.block_size, exts.as_slice());
        let ghost before = self@;
        let r = write_pieces(&mut self.dev, self.block_size, map.as_slice(), cur, t, data);
        assert(self@ =~= (VolumeView { disk: self.dev.bytes(), ..before }));
        r
    }

    /// Write the rest of the data into the new blocks.
    fn write_new_blocks(&mut self, runs: &Vec<(u64, u64)>, lead: u64, payload: &[u8]) -> (r: Result<
        (),
        ApfsError,
    >)
        requires
            old(self)@.wf(),
            lead + payload.len() <= u64::MAX,
        ensures
            final(self).dev.reliable() == old(self).dev.reliable(),
            final(self).block_size == old(self).block_size,
            final(self)@.wf(),
            old(self).dev.reliable() || r is Ok ==> ({
                let (x, d) = write_runs(
                    old(self)@.disk,
                    old(self)@.block_size,
                    runs@,
                    0,
                    zero_bytes(lead as nat) + payload@,
                    0,
                );
                plain(r) == x && final(self)@ == (VolumeView { disk: d, ..old(self)@ })
            }),
    {
        let ghost before = self@;
        let r = write_all_runs(&mut self.dev, self.block_size, runs, lead, payload);
        assert(self@ =~= (VolumeView { disk: self.dev.bytes(), ..before }));
        r
    }

    fn commit_growth(
        &mut self,
        oid: u64,
        private_id: u64,
        runs: &Vec<(u64, u64)>,
        log: u64,
        new_size: u64,
        new_eof: u64,
        now: i64,
    ) -> (r: Result<(), ApfsError>)
        requires
            old(self)@.wf(),
            new_eof == round_up(new_size, old(self).block_size),
        ensures
            final(self).dev.reliable() == old(self).dev.reliable(),
            final(self)@.wf(),
            comes_of(
                old(self)@.nx,
                plain(r),
                final(self)@,
                old(self)@.finish(
                    old(self)@.grown(oid, private_id, runs@, log as int, new_size, now),
                ),
                old(self).dev.reliable(),
            ),
    {
        let touched = self.grow_leaves(oid, private_id, runs, log, new_size, new_eof, now)?;
        self.commit_leaves(touched)
    }

    /// Common path of [`Self::append_data_at`] and [`Self::grow_file_at`]:
    /// write the data (else zeros) into the extents that the file has and into
    /// new blocks behind them, insert an extent record per allocated run, and
    /// refresh the inode's dstream field.
    fn append_or_grow_to(
        &mut self,
        oid: u64,
        inode: &InodeVal,
        new_size: u64,
        data: Option<&[u8]>,
        now: i64,
    ) -> (r: Result<(), ApfsError>)
        requires
            old(self)@.wf(),
            data matches Some(d) ==> new_size == inode_size(*inode) + d@.len(),
        ensures
            final(self).dev.reliable() == old(self).dev.reliable(),
            final(self)@.wf(),
            comes_of(
                old(self)@.nx,
                plain(r),
                final(self)@,
                old(self)@.grow_to(oid, *inode, new_size, data_view(data), now),
                old(self).dev.reliable(),
            ),
    {
        reveal(VolumeView::grow_to);
        let cur: u64 = inode.size();
        if new_size <= cur {
            return Ok(());
        }
        let new_eof: u128 = rounded(new_size, self.block_size);
        if new_eof > u64::MAX as u128 {
            return Err(internal("file size overflows"));
        }
        let exts = self.extents_of(inode.private_id)?;
        let log: u64 = self.find_stream_end(inode.private_id)?;
        let have: u64 = mapped_length(&exts);
        let base: u64 = smaller(cur, have);
        let inside: u64 = smaller(new_size, have);
        let count: u64 = blocks_missing(new_size, have, self.block_size);
        let runs = self.alloc_blocks(count)?;
        self.grow_reserved(
            &runs,
            oid,
            inode,
            &exts,
            log,
            new_size,
            new_eof as u64,
            cur - base,
            inside - base,
            data,
            now,
        )
    }

    fn grow_reserved(
        &mut self,
        runs: &Vec<(u64, u64)>,
        oid: u64,
        inode: &InodeVal,
        exts: &Vec<FileExtentVal>,
        log: u64,
        new_size: u64,
        new_eof: u64,
        lead: u64,
        t: u64,
        data: Option<&[u8]>,
        now: i64,
    ) -> (r: Result<(), ApfsError>)
        requires
            old(self)@.wf(),
            inode_size(*inode) + t <= u64::MAX,
            data matches Some(d) ==> t <= d@.len() && lead + d@.len() <= u64::MAX,
            new_eof == round_up(new_size, old(self).block_size),
        ensures
            final(self).dev.reliable() == old(self).dev.reliable(),
            final(self)@.wf(),
            comes_of(
                old(self)@.nx,
                plain(r),
                final(self)@,
                old(self)@.grow_into(
                    runs@,
                    oid,
                    *inode,
                    exts@,
                    log,
                    new_size,
                    lead as int,
                    t as int,
                    data_view(data),
                    now,
                ),
                old(self).dev.reliable(),
            ),
    {
        reveal(VolumeView::grow_into);
        self.write_tail(exts, inode.size(), t, data)?;
        match data {
            Some(d) => {
                let rest = copy_range(d, t as usize, d.len());
                assert(rest@ =~= d@.skip(t as int));
                self.write_new_blocks(runs, lead, rest.as_slice())?;
            },
            None => {
                let rest: Vec<u8> = Vec::new();
                assert(zero_bytes(0) + rest@ =~= seq![]);
                self.write_new_blocks(runs, 0, rest.as_slice())?;
            },
        }
        self.commit_growth(oid, inode.private_id, runs, log, new_size, new_eof, now)
    }
}

fn smaller(a: u64, b: u64) -> (r: u64)
    ensures
        r == within_first(a, b),
{
    if a <= b {
        a
    } else {
        b
    }
}

/// How many bytes extents have room for.
fn mapped_length(exts: &Vec<FileExtentVal>) -> (n: u64)
    ensures
        n == sat(total_length(exts@, 0)),
{
    let mut n: u64 = 0;
    let mut i: usize = 0;
    while i < exts.len()
        invariant
            i <= exts.len(),
            sat(total_length(exts@, 0)) == sat(n + total_length(exts@, i as int)),
        decreases exts.len() - i,
    {
        proof {
            lemma_total_length(exts@, i + 1);
        }
        n = match n.checked_add(exts[i].length()) {
            Some(x) => x,
            None => u64::MAX,
        };
        i += 1;
    }
    n
}

fn blocks_missing(size: u64, have: u64, block_size: u32) -> (n: u64)
    requires
        block_size > 0,
    ensures
        n == blocks_short(size, have, block_size),
{
    let short: u64 = size - smaller(size, have);
    let bs: u64 = block_size as u64;
    let whole: u64 = short / bs;
    proof {
        lemma_blocks_short(short as int, bs as int);
    }
    if short % bs == 0 {
        whole
    } else {
        whole + 1
    }
}

/// A count that is rounded up.
proof fn lemma_blocks_short(x: int, bs: int)
    requires
        0 <= x <= u64::MAX,
        bs > 0,
    ensures
        (x + bs - 1) / bs == x / bs + if x % bs == 0 {
            0int
        } else {
            1
        },
        (x + bs - 1) / bs <= u64::MAX,
        x / bs < u64::MAX || x % bs == 0,
{
    let q = x / bs;
    let r = x % bs;
    vstd::arithmetic::div_mod::lemma_fundamental_div_mod(x, bs);
    assert(q <= x) by (nonlinear_arith)
        requires
            q == x / bs,
            bs > 0,
            x >= 0,
    ;
    if r == 0 {
        assert((x + bs - 1) / bs == q) by (nonlinear_arith)
            requires
                x == bs * q,
                bs > 0,
        ;
    } else {
        assert((x + bs - 1) / bs == q + 1) by (nonlinear_arith)
            requires
                x == bs * q + r,
                0 < r < bs,
                bs > 0,
        ;
        assert(q + 1 <= x) by (nonlinear_arith)
            requires
                x == bs * q + r,
                0 < r < bs,
                bs > 0,
                q >= 0,
        ;
    }
}

fn end_of_record(key: &[u8], value: &[u8]) -> (e: u64)
    ensures
        forall|p: u64| e == #[trigger] record_end((key@, value@, p)),
{
    let log: u64 = if key.len() >= 16 {
        rd_u64(key, 8)
    } else {
        0
    };
    let len: u64 = match FileExtentVal::parse(value) {
        Ok(x) => x.length(),
        Err(_) => 0,
    };
    let step: u64 = if len > 0 {
        len
    } else {
        1
    };
    match log.checked_add(step) {
        Some(e) => e,
        None => u64::MAX,
    }
}

/// Write the first `t` bytes that are added to a file through its extent map,
/// a block's length at a time.
fn write_pieces<W: WriteAt>(
    dev: &mut W,
    block_size: u32,
    map: &[(u64, u64, u64)],
    cur: u64,
    t: u64,
    data: Option<&[u8]>,
) -> (r: Result<(), ApfsError>)
    requires
        block_size > 0,
        cur + t <= u64::MAX,
        data matches Some(d) ==> t <= d@.len(),
    ensures
        final(dev).reliable() == old(dev).reliable(),
        final(dev).bytes().len() == old(dev).bytes().len(),
        old(dev).reliable() || r is Ok ==> (plain(r), final(dev).bytes()) == fill_through(
            old(dev).bytes(),
            block_size,
            map@,
            cur as int,
            data_view(data),
            0,
            t as int,
        ),
{
    let ghost goal = fill_through(
        dev.bytes(),
        block_size,
        map@,
        cur as int,
        data_view(data),
        0,
        t as int,
    );
    let mut k: u64 = 0;
    while k < t
        invariant
            k <= t,
            block_size > 0,
            cur + t <= u64::MAX,
            data matches Some(d) ==> t <= d@.len(),
            dev.reliable() == old(dev).reliable(),
            dev.bytes().len() == old(dev).bytes().len(),
            goal == fill_through(
                old(dev).bytes(),
                block_size,
                map@,
                cur as int,
                data_view(data),
                0,
                t as int,
            ),
            goal == fill_through(
                dev.bytes(),
                block_size,
                map@,
                cur as int,
                data_view(data),
                k as int,
                t as int,
            ),
        decreases t - k,
    {
        let n: u64 = if t - k <= block_size as u64 {
            t - k
        } else {
            block_size as u64
        };
        let piece = match data {
            Some(d) => {
                let len: usize = d.len();
                assert(t <= len);
                copy_range(d, k as usize, (k + n) as usize)
            },
            None => zeroed(n as usize),
        };
        assert(piece@ =~= added_part(data_view(data), k as int, n as int));
        let c: u64 = write_through_extent_map(dev, block_size, map, cur + k, piece.as_slice())?;
        if c < n {
            return Err(internal("no extent covers the end of the file"));
        }
        k = k + n;
    }
    Ok(())
}

impl<D: WriteAt> ApfsVolume<D> {
    /// Append `buf` to the file at `path`, allocating new blocks as needed; a
    /// dstream field that has to be installed gets the time `now`. The new
    /// extent is a single contiguous run when possible. Returns the number of
    /// bytes appended.
    pub fn append_data_at(&mut self, path: &str, buf: &[u8], now: i64) -> (r: Result<
        u64,
        ApfsError,
    >)
        requires
            old(self)@.wf(),
        ensures
            final(self).dev.reliable() == old(self).dev.reliable(),
            final(self)@.wf(),
            comes_of(
                old(self)@.nx,
                plain(r),
                final(self)@,
                old(self)@.append(path@, buf@, now),
                old(self).dev.reliable(),
            ),
    {
        if buf.len() == 0 {
            return Ok(0);
        }
        let (oid, inode) = self.resolve(path)?;
        if inode.kind() != INODE_FILE_TYPE {
            return Err(
                ApfsError::NotADirectory(
                    text_str("append_data: ", path, " is not a regular file"),
                ),
            );
        }
        let cur: u64 = inode.size();
        let new_size: u64 = match cur.checked_add(buf.len() as u64) {
            Some(n) => n,
            None => {
                return Err(internal("file size overflows"));
            },
        };
        self.append_or_grow_to(oid, &inode, new_size, Some(buf), now)?;
        Ok(buf.len() as u64)
    }

    /// Append `buf` to the file at `path` now; see [`Self::append_data_at`].
    pub fn append_data(&mut self, path: &str, buf: &[u8]) -> (r: Result<u64, ApfsError>)
        requires
            old(self)@.wf(),
        ensures
            final(self).dev.reliable() == old(self).dev.reliable(),
            final(self)@.wf(),
            exists|now: i64|
                comes_of(
                    old(self)@.nx,
                    plain(r),
                    final(self)@,
                    #[trigger] old(self)@.append(path@, buf@, now),
                    old(self).dev.reliable(),
                ),
    {
        let now: i64 = now_nanos();
        self.append_data_at(path, buf, now)
    }

    /// Grow the file at `path` to `new_size`, zero-filling the new bytes; a
    /// dstream field that has to be installed gets the time `now`. Refused
    /// unless the new size is larger.
    pub fn grow_file_at(&mut self, path: &str, new_size: u64, now: i64) -> (r: Result<
        (),
        ApfsError,
    >)
        requires
            old(self)@.wf(),
        ensures
            final(self).dev.reliable() == old(self).dev.reliable(),
            final(self)@.wf(),
            comes_of(
                old(self)@.nx,
                plain(r),
                final(self)@,
                old(self)@.grow(path@, new_size, now),
                old(self).dev.reliable(),
            ),
    {
        let (oid, inode) = self.resolve(path)?;
        if inode.kind() != INODE_FILE_TYPE {
            return Err(
                ApfsError::NotADirectory(text_str("grow_file: ", path, " is not a regular file")),
            );
        }
        let cur: u64 = inode.size();
        if new_size <= cur {
            return Err(
                ApfsError::Internal(
                    text2("grow_file: new_size ", new_size, " <= current ", cur, ""),
                ),
            );
        }
        self.append_or_grow_to(oid, &inode, new_size, None, now)
    }

    /// Grow the file at `path` now; see [`Self::grow_file_at`].
    pub fn grow_file(&mut self, path: &str, new_size: u64) -> (r: Result<(), ApfsError>)
        requires
            old(self)@.wf(),
        ensures
            final(self).dev.reliable() == old(self).dev.reliable(),
            final(self)@.wf(),
            exists|now: i64|
                comes_of(
                    old(self)@.nx,
                    plain(r),
                    final(self)@,
                    #[trigger] old(self)@.grow(path@, new_size, now),
                    old(self).dev.reliable(),
                ),
    {
        let now: i64 = now_nanos();
        self.grow_file_at(path, new_size, now)
    }
}

/// A size is rounded up to the next whole number of blocks.
pub proof fn law_round_up(n: u64, block_size: u32)
    requires
        block_size > 0,
    ensures
        round_up(n, block_size) % (block_size as int) == 0,
        n <= round_up(n, block_size) < n + block_size,
{
    let b = block_size as int;
    let x = n + b - 1;
    vstd::arithmetic::div_mod::lemma_fundamental_div_mod(x, b);
    vstd::arithmetic::div_mod::lemma_mod_bound(x, b);
    vstd::arithmetic::div_mod::lemma_mod_multiples_basic(x / b, b);
    assert(b * (x / b) == x / b * b) by (nonlinear_arith);
}

} // verus!
