//! NX (container) and APFS (volume) superblocks.
//!
//! Field names track the APFS Reference. Only the fields that are read are
//! decoded; the rest goes into a `trailing` buffer that round-trips verbatim.

use crate::apfs::fletcher;
use crate::apfs::bytes::{
    array16, bytes_u32, bytes_u64, copy_range, group_bytes_len, le_u32, le_u64, lemma_read_u32,
    lemma_read_u64, lemma_write_u32, lemma_write_u64, push_array16, push_u32, push_u64, put_bytes,
    rd_u32, rd_u64, splice, zero_bytes, zeroed,
};
use crate::apfs::device::ReadAt;
use crate::apfs::error::{outcome, plain, ApfsError, Fault, IoError};
use crate::apfs::fletcher::{bad_size, checkable, intact, law_sealed_is_intact, sealed};
use crate::apfs::object::{
    agrees, block_outcome, expect_type_outcome, header_of, header_outcome, law_header_writeback,
    read_block, read_block_unchecked, HeaderView, ObjectHeader, OBJECT_TYPE_FS,
    OBJECT_TYPE_NX_SUPERBLOCK,
};
use crate::apfs::text::{msg2, msg3, text2, text3};
use crate::apfs::utf8::{lossy, text_of};
use vstd::slice::slice_subrange;
use vstd::prelude::*;

verus! {

/// 'NXSB', little-endian.
pub const NX_MAGIC: u32 = 0x4253_584E;

/// 'APSB', little-endian.
pub const APFS_MAGIC: u32 = 0x4253_5041;

/// Slot count for `nx_fs_oid`. The format fixes 100 in `nx_superblock_t`
/// regardless of `nx_max_file_systems`.
pub const NX_MAX_FILE_SYSTEMS: usize = 100;

/// Start of the verbatim `trailing` slice within the NXSB block: the boundary
/// between the parsed prefix and the unknown remainder.
pub const NX_TRAILING_OFFSET: usize = 984;

/// Container superblock.
#[derive(Debug)]
pub struct NxSuperblock {
    pub header: ObjectHeader,
    pub magic: u32,
    pub block_size: u32,
    pub block_count: u64,
    pub features: u64,
    pub readonly_compatible_features: u64,
    pub incompatible_features: u64,
    pub uuid: [u8; 16],
    pub next_oid: u64,
    pub next_xid: u64,
    pub xp_desc_blocks: u32,
    pub xp_data_blocks: u32,
    pub xp_desc_base: u64,
    pub xp_data_base: u64,
    pub xp_desc_next: u32,
    pub xp_data_next: u32,
    pub xp_desc_index: u32,
    pub xp_desc_len: u32,
    pub xp_data_index: u32,
    pub xp_data_len: u32,
    pub spaceman_oid: u64,
    pub omap_oid: u64,
    pub reaper_oid: u64,
    pub max_file_systems: u32,
    pub fs_oids: [u64; NX_MAX_FILE_SYSTEMS],
    /// Bytes from [`NX_TRAILING_OFFSET`] on, kept verbatim so that
    /// [`Self::write_to_block`] preserves all unknown fields.
    pub trailing: Vec<u8>,
}

/// The contents of an [`NxSuperblock`].
#[verifier::ext_equal]
pub struct NxView {
    pub header: HeaderView,
    pub magic: u32,
    pub block_size: u32,
    pub block_count: u64,
    pub features: u64,
    pub readonly_compatible_features: u64,
    pub incompatible_features: u64,
    pub uuid: Seq<u8>,
    pub next_oid: u64,
    pub next_xid: u64,
    pub xp_desc_blocks: u32,
    pub xp_data_blocks: u32,
    pub xp_desc_base: u64,
    pub xp_data_base: u64,
    pub xp_desc_next: u32,
    pub xp_data_next: u32,
    pub xp_desc_index: u32,
    pub xp_desc_len: u32,
    pub xp_data_index: u32,
    pub xp_data_len: u32,
    pub spaceman_oid: u64,
    pub omap_oid: u64,
    pub reaper_oid: u64,
    pub max_file_systems: u32,
    pub fs_oids: Seq<u64>,
    pub trailing: Seq<u8>,
}

impl View for NxSuperblock {
    type V = NxView;

    open spec fn view(&self) -> NxView {
        NxView {
            header: self.header@,
            magic: self.magic,
            block_size: self.block_size,
            block_count: self.block_count,
            features: self.features,
            readonly_compatible_features: self.readonly_compatible_features,
            incompatible_features: self.incompatible_features,
            uuid: self.uuid@,
            next_oid: self.next_oid,
            next_xid: self.next_xid,
            xp_desc_blocks: self.xp_desc_blocks,
            xp_data_blocks: self.xp_data_blocks,
            xp_desc_base: self.xp_desc_base,
            xp_data_base: self.xp_data_base,
            xp_desc_next: self.xp_desc_next,
            xp_data_next: self.xp_data_next,
            xp_desc_index: self.xp_desc_index,
            xp_desc_len: self.xp_desc_len,
            xp_data_index: self.xp_data_index,
            xp_data_len: self.xp_data_len,
            spaceman_oid: self.spaceman_oid,
            omap_oid: self.omap_oid,
            reaper_oid: self.reaper_oid,
            max_file_systems: self.max_file_systems,
            fs_oids: self.fs_oids@,
            trailing: self.trailing@,
        }
    }
}

/// `n` 64-bit integers stored one after the other at offset `o`.
pub open spec fn u64s_of(b: Seq<u8>, o: int, n: nat) -> Seq<u64> {
    Seq::new(n, |i: int| le_u64(b, o + 8 * i))
}

/// The bytes of 64-bit integers stored one after the other.
pub open spec fn u64s_bytes(s: Seq<u64>) -> Seq<u8>
    decreases s.len(),
{
    if s.len() == 0 { Seq::empty() } else { u64s_bytes(s.drop_last()) + bytes_u64(s.last()) }
}

/// The container superblock that a block holds.
pub open spec fn nx_of(b: Seq<u8>) -> NxView {
    NxView {
        header: header_of(b),
        magic: le_u32(b, 32),
        block_size: le_u32(b, 36),
        block_count: le_u64(b, 40),
        features: le_u64(b, 48),
        readonly_compatible_features: le_u64(b, 56),
        incompatible_features: le_u64(b, 64),
        uuid: b.subrange(72, 88),
        next_oid: le_u64(b, 88),
        next_xid: le_u64(b, 96),
        xp_desc_blocks: le_u32(b, 104),
        xp_data_blocks: le_u32(b, 108),
        xp_desc_base: le_u64(b, 112),
        xp_data_base: le_u64(b, 120),
        xp_desc_next: le_u32(b, 128),
        xp_data_next: le_u32(b, 132),
        xp_desc_index: le_u32(b, 136),
        xp_desc_len: le_u32(b, 140),
        xp_data_index: le_u32(b, 144),
        xp_data_len: le_u32(b, 148),
        spaceman_oid: le_u64(b, 152),
        omap_oid: le_u64(b, 160),
        reaper_oid: le_u64(b, 168),
        max_file_systems: le_u32(b, 180),
        fs_oids: u64s_of(b, 184, 100),
        trailing: b.subrange(984, b.len() as int),
    }
}

/// Where the first field of the container superblock ends that a block of
/// `len` bytes does not hold, given that it holds the magic.
pub open spec fn nx_missing_field(len: int) -> int {
    if len < 40 { 40 } else if len < 48 { 48 } else if len < 56 { 56 } else if len < 64 { 64 }
    else if len < 72 { 72 } else if len < 88 { 88 } else if len < 96 { 96 }
    else if len < 104 { 104 } else if len < 108 { 108 } else if len < 112 { 112 }
    else if len < 120 { 120 } else if len < 128 { 128 } else if len < 152 { 132 + (len - 128) / 4 * 4 }
    else if len < 176 { 160 + (len - 152) / 8 * 8 } else if len < 180 { 180 }
    else if len < 184 { 184 } else { 192 + (len - 184) / 8 * 8 }
}

/// The container superblock that a block holds, or why it holds none.
pub open spec fn nx_outcome(b: Seq<u8>) -> Result<NxView, Fault> {
    match header_outcome(b) {
        Err(e) => Err(e),
        Ok(h) => match expect_type_outcome(h, OBJECT_TYPE_NX_SUPERBLOCK) {
            Err(e) => Err(e),
            Ok(_) => if b.len() < 36 {
                Err(Fault::Truncated { need: 36, have: b.len() as int })
            } else if le_u32(b, 32) != NX_MAGIC {
                Err(Fault::BadContainerMagic(le_u32(b, 32)))
            } else if b.len() < NX_TRAILING_OFFSET {
                Err(
                    Fault::Truncated {
                        need: nx_missing_field(b.len() as int),
                        have: b.len() as int,
                    },
                )
            } else {
                Ok(nx_of(b))
            },
        },
    }
}

impl NxView {
    /// The fields from the magic up to the one that is not tracked.
    pub open spec fn front_bytes(self) -> Seq<u8> {
        bytes_u32(self.magic) + bytes_u32(self.block_size) + bytes_u64(self.block_count)
            + bytes_u64(self.features) + bytes_u64(self.readonly_compatible_features) + bytes_u64(
            self.incompatible_features,
        ) + self.uuid + bytes_u64(self.next_oid) + bytes_u64(self.next_xid) + bytes_u32(
            self.xp_desc_blocks,
        ) + bytes_u32(self.xp_data_blocks) + bytes_u64(self.xp_desc_base) + bytes_u64(
            self.xp_data_base,
        ) + bytes_u32(self.xp_desc_next) + bytes_u32(self.xp_data_next) + bytes_u32(
            self.xp_desc_index,
        ) + bytes_u32(self.xp_desc_len) + bytes_u32(self.xp_data_index) + bytes_u32(
            self.xp_data_len,
        ) + bytes_u64(self.spaceman_oid) + bytes_u64(self.omap_oid) + bytes_u64(self.reaper_oid)
    }

    /// The fields after the one that is not tracked.
    pub open spec fn back_bytes(self) -> Seq<u8> {
        bytes_u32(self.max_file_systems) + u64s_bytes(self.fs_oids)
    }

    /// `buf` with the parsed prefix written over it. The four bytes of
    /// `nx_test_type` keep what the buffer holds.
    pub open spec fn prefix_written(self, buf: Seq<u8>) -> Seq<u8> {
        splice(
            splice(splice(buf, 0, self.header.encode()), 32, self.front_bytes()),
            180,
            self.back_bytes(),
        )
    }

    /// `buf` with the whole superblock written over it, before the checksum
    /// is refreshed. What follows `trailing` is zeroed.
    pub open spec fn body_written(self, buf: Seq<u8>) -> Seq<u8> {
        splice(
            self.prefix_written(buf),
            984,
            self.trailing + zero_bytes((buf.len() - 984 - self.trailing.len()) as nat),
        )
    }

    /// The outcome of writing the superblock over `buf`, and the buffer
    /// afterwards.
    pub open spec fn write_outcome(self, buf: Seq<u8>) -> (Result<(), Fault>, Seq<u8>) {
        if buf.len() != self.block_size {
            (
                Err(
                    Fault::Internal(
                        msg2(
                            "NxSuperblock::write_to_block: buf len "@,
                            buf.len(),
                            " != block_size "@,
                            self.block_size as nat,
                            ""@,
                        ),
                    ),
                ),
                buf,
            )
        } else if NX_TRAILING_OFFSET + self.trailing.len() > buf.len() {
            (
                Err(
                    Fault::Internal(
                        msg3(
                            "NxSuperblock::write_to_block: trailing overflows block ("@,
                            984,
                            " + "@,
                            self.trailing.len(),
                            " > "@,
                            buf.len(),
                            ")"@,
                        ),
                    ),
                ),
                if buf.len() < NX_TRAILING_OFFSET { buf } else { self.prefix_written(buf) },
            )
        } else if !checkable(buf.len()) {
            (Err(bad_size(buf.len())), self.body_written(buf))
        } else {
            (Ok(()), sealed(self.body_written(buf)))
        }
    }
}

fn missing_field(len: usize) -> (need: usize)
    requires
        36 <= len < NX_TRAILING_OFFSET,
    ensures
        need == nx_missing_field(len as int),
{
    if len < 40 {
        40
    } else if len < 48 {
        48
    } else if len < 56 {
        56
    } else if len < 64 {
        64
    } else if len < 72 {
        72
    } else if len < 88 {
        88
    } else if len < 96 {
        96
    } else if len < 104 {
        104
    } else if len < 108 {
        108
    } else if len < 112 {
        112
    } else if len < 120 {
        120
    } else if len < 128 {
        128
    } else if len < 152 {
        132 + (len - 128) / 4 * 4
    } else if len < 176 {
        160 + (len - 152) / 8 * 8
    } else if len < 180 {
        180
    } else if len < 184 {
        184
    } else {
        192 + (len - 184) / 8 * 8
    }
}

fn read_oids(b: &[u8]) -> (a: [u64; NX_MAX_FILE_SYSTEMS])
    requires
        b.len() >= NX_TRAILING_OFFSET,
    ensures
        a@ == u64s_of(b@, 184, 100),
{
    let mut a: [u64; NX_MAX_FILE_SYSTEMS] = [0u64; 100];
    let mut i: usize = 0;
    while i < 100
        invariant
            i <= 100,
            a@.len() == 100,
            b.len() >= NX_TRAILING_OFFSET,
            forall|k: int| 0 <= k < i ==> #[trigger] a@[k] == le_u64(b@, 184 + 8 * k),
        decreases 100 - i,
    {
        a[i] = rd_u64(b, 184 + 8 * i);
        i += 1;
    }
    assert(a@ =~= u64s_of(b@, 184, 100));
    a
}

fn copy_oids(s: &[u64; NX_MAX_FILE_SYSTEMS]) -> (a: [u64; NX_MAX_FILE_SYSTEMS])
    ensures
        a@ == s@,
{
    let mut a: [u64; NX_MAX_FILE_SYSTEMS] = [0u64; 100];
    let mut i: usize = 0;
    while i < 100
        invariant
            i <= 100,
            a@.len() == 100,
            s@.len() == 100,
            forall|k: int| 0 <= k < i ==> #[trigger] a@[k] == s@[k],
        decreases 100 - i,
    {
        a[i] = s[i];
        i += 1;
    }
    assert(a@ =~= s@);
    a
}

fn copy_uuid(s: &[u8; 16]) -> (a: [u8; 16])
    ensures
        a@ == s@,
{
    let a = [
        s[0],
        s[1],
        s[2],
        s[3],
        s[4],
        s[5],
        s[6],
        s[7],
        s[8],
        s[9],
        s[10],
        s[11],
        s[12],
        s[13],
        s[14],
        s[15],
    ];
    assert(a@ =~= s@);
    a
}

impl Clone for NxSuperblock {
    fn clone(&self) -> (r: Self)
        ensures
            r@ == self@,
    {
        let r = NxSuperblock {
            header: self.header,
            magic: self.magic,
            block_size: self.block_size,
            block_count: self.block_count,
            features: self.features,
            readonly_compatible_features: self.readonly_compatible_features,
            incompatible_features: self.incompatible_features,
            uuid: copy_uuid(&self.uuid),
            next_oid: self.next_oid,
            next_xid: self.next_xid,
            xp_desc_blocks: self.xp_desc_blocks,
            xp_data_blocks: self.xp_data_blocks,
            xp_desc_base: self.xp_desc_base,
            xp_data_base: self.xp_data_base,
            xp_desc_next: self.xp_desc_next,
            xp_data_next: self.xp_data_next,
            xp_desc_index: self.xp_desc_index,
            xp_desc_len: self.xp_desc_len,
            xp_data_index: self.xp_data_index,
            xp_data_len: self.xp_data_len,
            spaceman_oid: self.spaceman_oid,
            omap_oid: self.omap_oid,
            reaper_oid: self.reaper_oid,
            max_file_systems: self.max_file_systems,
            fs_oids: copy_oids(&self.fs_oids),
            trailing: copy_range(self.trailing.as_slice(), 0, self.trailing.len()),
        };
        assert(r@ =~= self@);
        r
    }
}

impl NxSuperblock {
    pub fn parse(block: &[u8]) -> (r: Result<Self, ApfsError>)
        ensures
            outcome(r) == nx_outcome(block@),
    {
        let header = ObjectHeader::parse(block)?;
        header.expect_type(OBJECT_TYPE_NX_SUPERBLOCK)?;
        if block.len() < 36 {
            return Err(ApfsError::Truncated { need: 36, have: block.len() });
        }
        let magic: u32 = rd_u32(block, 32);
        if magic != NX_MAGIC {
            return Err(ApfsError::BadContainerMagic(magic));
        }
        if block.len() < NX_TRAILING_OFFSET {
            return Err(
                ApfsError::Truncated { need: missing_field(block.len()), have: block.len() },
            );
        }
        let sb = NxSuperblock {
            header,
            magic,
            block_size: rd_u32(block, 36),
            block_count: rd_u64(block, 40),
            features: rd_u64(block, 48),
            readonly_compatible_features: rd_u64(block, 56),
            incompatible_features: rd_u64(block, 64),
            uuid: array16(slice_subrange(block, 72, 88)),
            next_oid: rd_u64(block, 88),
            next_xid: rd_u64(block, 96),
            xp_desc_blocks: rd_u32(block, 104),
            xp_data_blocks: rd_u32(block, 108),
            xp_desc_base: rd_u64(block, 112),
            xp_data_base: rd_u64(block, 120),
            xp_desc_next: rd_u32(block, 128),
            xp_data_next: rd_u32(block, 132),
            xp_desc_index: rd_u32(block, 136),
            xp_desc_len: rd_u32(block, 140),
            xp_data_index: rd_u32(block, 144),
            xp_data_len: rd_u32(block, 148),
            spaceman_oid: rd_u64(block, 152),
            omap_oid: rd_u64(block, 160),
            reaper_oid: rd_u64(block, 168),
            max_file_systems: rd_u32(block, 180),
            fs_oids: read_oids(block),
            trailing: copy_range(block, NX_TRAILING_OFFSET, block.len()),
        };
        assert(sb@ =~= nx_of(block@));
        Ok(sb)
    }

    fn encode_front(&self) -> (v: Vec<u8>)
        ensures
            v@ == self@.front_bytes(),
            v@.len() == 144,
    {
        broadcast use group_bytes_len;

        let mut v: Vec<u8> = Vec::new();
        push_u32(&mut v, self.magic);
        push_u32(&mut v, self.block_size);
        push_u64(&mut v, self.block_count);
        push_u64(&mut v, self.features);
        push_u64(&mut v, self.readonly_compatible_features);
        push_u64(&mut v, self.incompatible_features);
        push_array16(&mut v, &self.uuid);
        push_u64(&mut v, self.next_oid);
        push_u64(&mut v, self.next_xid);
        push_u32(&mut v, self.xp_desc_blocks);
        push_u32(&mut v, self.xp_data_blocks);
        push_u64(&mut v, self.xp_desc_base);
        push_u64(&mut v, self.xp_data_base);
        push_u32(&mut v, self.xp_desc_next);
        push_u32(&mut v, self.xp_data_next);
        push_u32(&mut v, self.xp_desc_index);
        push_u32(&mut v, self.xp_desc_len);
        push_u32(&mut v, self.xp_data_index);
        push_u32(&mut v, self.xp_data_len);
        push_u64(&mut v, self.spaceman_oid);
        push_u64(&mut v, self.omap_oid);
        push_u64(&mut v, self.reaper_oid);
        assert(v@ =~= self@.front_bytes());
        v
    }

    fn encode_back(&self) -> (v: Vec<u8>)
        ensures
            v@ == self@.back_bytes(),
            v@.len() == 804,
    {
        broadcast use group_bytes_len;

        let mut v: Vec<u8> = Vec::new();
        push_u32(&mut v, self.max_file_systems);
        let ghost head = v@;
        let mut i: usize = 0;
        assert(v@ =~= head + u64s_bytes(self.fs_oids@.subrange(0, 0)));
        while i < 100
            invariant
                i <= 100,
                self.fs_oids@.len() == 100,
                head.len() == 4,
                v@.len() == 4 + 8 * i,
                v@ == head + u64s_bytes(self.fs_oids@.subrange(0, i as int)),
            decreases 100 - i,
        {
            broadcast use group_bytes_len;

            let ghost before = v@;
            push_u64(&mut v, self.fs_oids[i]);
            proof {
                let next = self.fs_oids@.subrange(0, i + 1);
                assert(next.drop_last() =~= self.fs_oids@.subrange(0, i as int));
                assert(v@ =~= head + u64s_bytes(next));
            }
            i += 1;
        }
        assert(self.fs_oids@.subrange(0, 100) =~= self.fs_oids@);
        assert(v@ =~= self@.back_bytes());
        v
    }

    /// Write the superblock into `buf` (must be `block_size` bytes). Copies
    /// `trailing` verbatim and refreshes the Fletcher checksum.
    pub fn write_to_block(&self, buf: &mut [u8]) -> (r: Result<(), ApfsError>)
        ensures
            (plain(r), final(buf)@) == self@.write_outcome(old(buf)@),
    {
        if buf.len() != self.block_size as usize {
            return Err(
                ApfsError::Internal(
                    text2(
                        "NxSuperblock::write_to_block: buf len ",
                        buf.len() as u64,
                        " != block_size ",
                        self.block_size as u64,
                        "",
                    ),
                ),
            );
        }
        let fits = buf.len() >= NX_TRAILING_OFFSET && self.trailing.len() <= buf.len()
            - NX_TRAILING_OFFSET;
        if buf.len() >= NX_TRAILING_OFFSET {
            let head = self.header.to_bytes();
            put_bytes(buf, 0, head.as_slice());
            let front = self.encode_front();
            put_bytes(buf, 32, front.as_slice());
            // `nx_test_type` is not tracked and stays as it is.
            let back = self.encode_back();
            put_bytes(buf, 180, back.as_slice());
        }
        if !fits {
            return Err(
                ApfsError::Internal(
                    text3(
                        "NxSuperblock::write_to_block: trailing overflows block (",
                        984,
                        " + ",
                        self.trailing.len() as u64,
                        " > ",
                        buf.len() as u64,
                        ")",
                    ),
                ),
            );
        }
        let ghost prefixed = buf@;
        put_bytes(buf, NX_TRAILING_OFFSET, self.trailing.as_slice());
        let tail_end: usize = NX_TRAILING_OFFSET + self.trailing.len();
        let zeros = zeroed(buf.len() - tail_end);
        put_bytes(buf, tail_end, zeros.as_slice());
        assert(buf@ =~= self@.body_written(old(buf)@));
        fletcher::refresh_object_checksum(buf)
    }
}

/// The size that is read before the block size is known.
pub const NX_PROBE: usize = 4096;

/// The container superblock in block 0.
pub open spec fn first_nx(disk: Seq<u8>) -> Result<NxView, Fault> {
    if disk.len() < NX_PROBE {
        Err(Fault::Io(IoError::UnexpectedEof))
    } else {
        let probe = disk.subrange(0, NX_PROBE as int);
        match nx_outcome(probe) {
            Err(e) => Err(e),
            Ok(sb) => if sb.block_size != NX_PROBE {
                match block_outcome(disk, 0, sb.block_size) {
                    Err(e) => Err(e),
                    Ok(b) => nx_outcome(b),
                }
            } else if !intact(probe) {
                Err(Fault::BadChecksum)
            } else {
                Ok(sb)
            },
        }
    }
}

/// Read the container superblock at block 0. Call [`find_latest_nxsb`] to get
/// the live one.
///
/// The block size is unknown at this point: 4 KiB are read, and the block is
/// read again when its own size turns out to be another.
pub fn read_nxsb<D: ReadAt>(dev: &D) -> (r: Result<NxSuperblock, ApfsError>)
    ensures
        agrees(outcome(r), first_nx(dev.bytes()), dev.reliable()),
{
    let probe = match dev.read_at(0, NX_PROBE) {
        Ok(v) => v,
        Err(e) => {
            return Err(ApfsError::Io(e));
        },
    };
    let sb = NxSuperblock::parse(probe.as_slice())?;
    if sb.block_size as usize != NX_PROBE {
        let block = read_block(dev, 0, sb.block_size)?;
        return NxSuperblock::parse(block.as_slice());
    }
    if !fletcher::verify_object(probe.as_slice()) {
        return Err(ApfsError::BadChecksum);
    }
    Ok(sb)
}

/// The superblock in slot `i` of the descriptor ring, if the slot holds an
/// intact one.
pub open spec fn ring_nx(disk: Seq<u8>, seed: NxView, i: int) -> Option<NxView> {
    if seed.xp_desc_base + i > u64::MAX {
        None
    } else {
        match block_outcome(disk, (seed.xp_desc_base + i) as u64, seed.block_size) {
            Err(_) => None,
            Ok(b) => if !intact(b) {
                None
            } else {
                match nx_outcome(b) {
                    Ok(sb) => Some(sb),
                    Err(_) => None,
                }
            },
        }
    }
}

/// The newest superblock among `best` and the ring slots from `i` on.
pub open spec fn newest_nx(disk: Seq<u8>, seed: NxView, i: int, best: NxView) -> NxView
    decreases seed.xp_desc_blocks - i,
{
    if i >= seed.xp_desc_blocks {
        best
    } else {
        match ring_nx(disk, seed, i) {
            Some(sb) => newest_nx(
                disk,
                seed,
                i + 1,
                if sb.header.xid > best.header.xid { sb } else { best },
            ),
            None => newest_nx(disk, seed, i + 1, best),
        }
    }
}

fn read_ring_nx<D: ReadAt>(dev: &D, seed: &NxSuperblock, i: u32) -> (r: Option<NxSuperblock>)
    ensures
        dev.reliable() ==> (match r {
            Some(sb) => Some(sb@),
            None => None,
        }) == ring_nx(dev.bytes(), seed@, i as int),
        r matches Some(sb) ==> ring_nx(dev.bytes(), seed@, i as int) == Some(sb@),
{
    let paddr: u64 = match seed.xp_desc_base.checked_add(i as u64) {
        Some(p) => p,
        None => {
            return None;
        },
    };
    let raw = match read_block_unchecked(dev, paddr, seed.block_size) {
        Ok(b) => b,
        Err(_) => {
            return None;
        },
    };
    if !fletcher::verify_object(raw.as_slice()) {
        return None;
    }
    match NxSuperblock::parse(raw.as_slice()) {
        Ok(sb) => Some(sb),
        Err(_) => None,
    }
}

/// Walk the checkpoint descriptor ring and return the highest-XID NXSB whose
/// checksum and type are valid. Slots that cannot be read are passed over.
pub fn find_latest_nxsb<D: ReadAt>(dev: &D, seed: &NxSuperblock) -> (r: Result<
    NxSuperblock,
    ApfsError,
>)
    ensures
        r is Ok,
        dev.reliable() ==> r->Ok_0@ == newest_nx(dev.bytes(), seed@, 0, seed@),
        r->Ok_0@ == seed@ || exists|i: int|
            0 <= i < seed.xp_desc_blocks && #[trigger] ring_nx(dev.bytes(), seed@, i) == Some(
                r->Ok_0@,
            ),
        r->Ok_0@.header.xid >= seed@.header.xid,
{
    let mut best: NxSuperblock = seed.clone();
    let mut i: u32 = 0;
    while i < seed.xp_desc_blocks
        invariant
            i <= seed.xp_desc_blocks,
            dev.reliable() ==> newest_nx(dev.bytes(), seed@, 0, seed@) == newest_nx(
                dev.bytes(),
                seed@,
                i as int,
                best@,
            ),
            best@ == seed@ || exists|k: int|
                0 <= k < seed.xp_desc_blocks && #[trigger] ring_nx(dev.bytes(), seed@, k) == Some(
                    best@,
                ),
            best@.header.xid >= seed@.header.xid,
        decreases seed.xp_desc_blocks - i,
    {
        match read_ring_nx(dev, seed, i) {
            Some(sb) => {
                assert(ring_nx(dev.bytes(), seed@, i as int) == Some(sb@));
                if sb.header.xid > best.header.xid {
                    best = sb;
                }
            },
            None => {},
        }
        i += 1;
    }
    Ok(best)
}

/// Volume superblock (`apfs_superblock_t`): name, OIDs and counters.
#[derive(Debug)]
pub struct ApfsSuperblock {
    pub header: ObjectHeader,
    pub magic: u32,
    pub omap_oid: u64,
    pub root_tree_oid: u64,
    pub extentref_tree_oid: u64,
    pub snap_meta_tree_oid: u64,
    pub volume_name: String,
    pub num_files: u64,
    pub num_directories: u64,
    pub num_symlinks: u64,
    pub num_other_fsobjects: u64,
    pub num_snapshots: u64,
    pub vol_uuid: [u8; 16],
    pub next_obj_id: u64,
    pub incompat_features: u64,
    /// Verbatim trailing bytes.
    pub trailing: Vec<u8>,
}

/// The contents of an [`ApfsSuperblock`].
#[verifier::ext_equal]
pub struct ApfsView {
    pub header: HeaderView,
    pub magic: u32,
    pub omap_oid: u64,
    pub root_tree_oid: u64,
    pub extentref_tree_oid: u64,
    pub snap_meta_tree_oid: u64,
    pub volume_name: Seq<char>,
    pub num_files: u64,
    pub num_directories: u64,
    pub num_symlinks: u64,
    pub num_other_fsobjects: u64,
    pub num_snapshots: u64,
    pub vol_uuid: Seq<u8>,
    pub next_obj_id: u64,
    pub incompat_features: u64,
    pub trailing: Seq<u8>,
}

impl View for ApfsSuperblock {
    type V = ApfsView;

    open spec fn view(&self) -> ApfsView {
        ApfsView {
            header: self.header@,
            magic: self.magic,
            omap_oid: self.omap_oid,
            root_tree_oid: self.root_tree_oid,
            extentref_tree_oid: self.extentref_tree_oid,
            snap_meta_tree_oid: self.snap_meta_tree_oid,
            volume_name: self.volume_name@,
            num_files: self.num_files,
            num_directories: self.num_directories,
            num_symlinks: self.num_symlinks,
            num_other_fsobjects: self.num_other_fsobjects,
            num_snapshots: self.num_snapshots,
            vol_uuid: self.vol_uuid@,
            next_obj_id: self.next_obj_id,
            incompat_features: self.incompat_features,
            trailing: self.trailing@,
        }
    }
}

impl Clone for ApfsSuperblock {
    fn clone(&self) -> (r: Self)
        ensures
            r@ == self@,
    {
        let r = ApfsSuperblock {
            header: self.header,
            magic: self.magic,
            omap_oid: self.omap_oid,
            root_tree_oid: self.root_tree_oid,
            extentref_tree_oid: self.extentref_tree_oid,
            snap_meta_tree_oid: self.snap_meta_tree_oid,
            volume_name: self.volume_name.clone(),
            num_files: self.num_files,
            num_directories: self.num_directories,
            num_symlinks: self.num_symlinks,
            num_other_fsobjects: self.num_other_fsobjects,
            num_snapshots: self.num_snapshots,
            vol_uuid: copy_uuid(&self.vol_uuid),
            next_obj_id: self.next_obj_id,
            incompat_features: self.incompat_features,
            trailing: self.trailing.clone(),
        };
        assert(r.trailing@ =~= self.trailing@);
        r
    }
}

/// Where the volume name starts and ends, and with it the parsed prefix.
pub const APFS_NAME_OFFSET: usize = 560;

pub const APFS_TRAILING_OFFSET: usize = 816;

/// The position of the first NUL from `i` on, or the length.
pub open spec fn nul_at(b: Seq<u8>, i: int) -> int
    decreases b.len() - i,
{
    if i >= b.len() || i < 0 {
        b.len() as int
    } else if b[i] == 0 {
        i
    } else {
        nul_at(b, i + 1)
    }
}

/// The text of a NUL-terminated string.
pub open spec fn cstring_text(b: Seq<u8>) -> Seq<char> {
    text_of(b.subrange(0, nul_at(b, 0)))
}

/// The volume superblock that a block holds.
pub open spec fn apfs_of(b: Seq<u8>) -> ApfsView {
    ApfsView {
        header: header_of(b),
        magic: le_u32(b, 32),
        incompat_features: le_u64(b, 56),
        omap_oid: le_u64(b, 128),
        root_tree_oid: le_u64(b, 136),
        extentref_tree_oid: le_u64(b, 144),
        snap_meta_tree_oid: le_u64(b, 152),
        next_obj_id: le_u64(b, 176),
        num_files: le_u64(b, 184),
        num_directories: le_u64(b, 192),
        num_symlinks: le_u64(b, 200),
        num_other_fsobjects: le_u64(b, 208),
        num_snapshots: le_u64(b, 216),
        vol_uuid: b.subrange(240, 256),
        volume_name: cstring_text(b.subrange(560, 816)),
        trailing: b.subrange(816, b.len() as int),
    }
}

/// Where the first field of the volume superblock ends that a block of `len`
/// bytes does not hold, given that it holds the magic.
pub open spec fn apfs_missing_field(len: int) -> int {
    if len < 40 { 40 } else if len < 48 { 48 } else if len < 56 { 56 } else if len < 64 { 64 }
    else if len < 72 { 72 } else if len < 96 { 96 } else if len < 116 { 116 }
    else if len < 128 { 128 } else if len < 160 { 136 + (len - 128) / 8 * 8 }
    else if len < 176 { 176 } else if len < 224 { 184 + (len - 176) / 8 * 8 }
    else if len < 240 { 240 } else if len < 256 { 256 } else if len < 264 { 264 }
    else if len < 272 { 272 } else if len < 304 { 304 } else if len < 560 { 560 } else { 816 }
}

/// The volume superblock that a block holds, or why it holds none.
pub open spec fn apfs_outcome(b: Seq<u8>) -> Result<ApfsView, Fault> {
    match header_outcome(b) {
        Err(e) => Err(e),
        Ok(h) => match expect_type_outcome(h, OBJECT_TYPE_FS) {
            Err(e) => Err(e),
            Ok(_) => if b.len() < 36 {
                Err(Fault::Truncated { need: 36, have: b.len() as int })
            } else if le_u32(b, 32) != APFS_MAGIC {
                Err(Fault::BadVolumeMagic(le_u32(b, 32)))
            } else if b.len() < APFS_TRAILING_OFFSET {
                Err(
                    Fault::Truncated {
                        need: apfs_missing_field(b.len() as int),
                        have: b.len() as int,
                    },
                )
            } else {
                Ok(apfs_of(b))
            },
        },
    }
}

fn volume_missing_field(len: usize) -> (need: usize)
    requires
        36 <= len < APFS_TRAILING_OFFSET,
    ensures
        need == apfs_missing_field(len as int),
{
    if len < 40 {
        40
    } else if len < 48 {
        48
    } else if len < 56 {
        56
    } else if len < 64 {
        64
    } else if len < 72 {
        72
    } else if len < 96 {
        96
    } else if len < 116 {
        116
    } else if len < 128 {
        128
    } else if len < 160 {
        136 + (len - 128) / 8 * 8
    } else if len < 176 {
        176
    } else if len < 224 {
        184 + (len - 176) / 8 * 8
    } else if len < 240 {
        240
    } else if len < 256 {
        256
    } else if len < 264 {
        264
    } else if len < 272 {
        272
    } else if len < 304 {
        304
    } else if len < 560 {
        560
    } else {
        816
    }
}

impl ApfsSuperblock {
    /// Parse a volume superblock. Behind the magic stand the feature words
    /// (`incompat` at 56), counters and crypto state, the tree OIDs from 128
    /// on, the object counters from 176 on, the UUID at 240 and the volume
    /// name at 560.
    pub fn parse(block: &[u8]) -> (r: Result<Self, ApfsError>)
        ensures
            outcome(r) == apfs_outcome(block@),
    {
        let header = ObjectHeader::parse(block)?;
        header.expect_type(OBJECT_TYPE_FS)?;
        if block.len() < 36 {
            return Err(ApfsError::Truncated { need: 36, have: block.len() });
        }
        let magic: u32 = rd_u32(block, 32);
        if magic != APFS_MAGIC {
            return Err(ApfsError::BadVolumeMagic(magic));
        }
        if block.len() < APFS_TRAILING_OFFSET {
            return Err(
                ApfsError::Truncated {
                    need: volume_missing_field(block.len()),
                    have: block.len(),
                },
            );
        }
        let sb = ApfsSuperblock {
            header,
            magic,
            omap_oid: rd_u64(block, 128),
            root_tree_oid: rd_u64(block, 136),
            extentref_tree_oid: rd_u64(block, 144),
            snap_meta_tree_oid: rd_u64(block, 152),
            volume_name: decode_cstring(
                slice_subrange(block, APFS_NAME_OFFSET, APFS_TRAILING_OFFSET),
            ),
            num_files: rd_u64(block, 184),
            num_directories: rd_u64(block, 192),
            num_symlinks: rd_u64(block, 200),
            num_other_fsobjects: rd_u64(block, 208),
            num_snapshots: rd_u64(block, 216),
            vol_uuid: array16(slice_subrange(block, 240, 256)),
            next_obj_id: rd_u64(block, 176),
            incompat_features: rd_u64(block, 56),
            trailing: copy_range(block, APFS_TRAILING_OFFSET, block.len()),
        };
        assert(sb@ =~= apfs_of(block@));
        Ok(sb)
    }
}

/// The text of a NUL-terminated string.
pub fn decode_cstring(bytes: &[u8]) -> (s: String)
    ensures
        s@ == cstring_text(bytes@),
{
    let mut i: usize = 0;
    while i < bytes.len() && bytes[i] != 0
        invariant
            i <= bytes.len(),
            nul_at(bytes@, 0) == nul_at(bytes@, i as int),
        decreases bytes.len() - i,
    {
        i += 1;
    }
    lossy(slice_subrange(bytes, 0, i))
}

proof fn lemma_u64s_len(s: Seq<u64>)
    ensures
        u64s_bytes(s).len() == 8 * s.len(),
    decreases s.len(),
{
    broadcast use group_bytes_len;

    if s.len() > 0 {
        lemma_u64s_len(s.drop_last());
    }
}

proof fn lemma_u64s_back(b: Seq<u8>, o: int, s: Seq<u64>)
    requires
        0 <= o,
        o + 8 * s.len() <= b.len(),
        b.subrange(o, o + 8 * s.len()) == u64s_bytes(s),
    ensures
        u64s_of(b, o, s.len()) == s,
    decreases s.len(),
{
    broadcast use group_bytes_len;

    if s.len() > 0 {
        let n = s.len() as int;
        let rest = s.drop_last();
        lemma_u64s_len(rest);
        let whole = b.subrange(o, o + 8 * n);
        assert(b.subrange(o, o + 8 * (n - 1)) =~= whole.subrange(0, 8 * (n - 1)));
        assert(whole.subrange(0, 8 * (n - 1)) =~= u64s_bytes(rest));
        assert(b.subrange(o + 8 * (n - 1), o + 8 * n) =~= whole.subrange(8 * (n - 1), 8 * n));
        assert(whole.subrange(8 * (n - 1), 8 * n) =~= bytes_u64(s.last()));
        lemma_u64s_back(b, o, rest);
        lemma_read_u64(b, o + 8 * (n - 1), s.last());
        assert forall|i: int| 0 <= i < n implies u64s_of(b, o, s.len())[i] == s[i] by {
            if i < n - 1 {
                assert(u64s_of(b, o, rest.len())[i] == rest[i]);
            }
        }
    }
    assert(u64s_of(b, o, s.len()) =~= s);
}

proof fn lemma_u64s_forth(b: Seq<u8>, o: int, n: nat)
    requires
        0 <= o,
        o + 8 * n <= b.len(),
    ensures
        u64s_bytes(u64s_of(b, o, n)) == b.subrange(o, o + 8 * n),
    decreases n,
{
    if n > 0 {
        let m = (n - 1) as nat;
        lemma_u64s_forth(b, o, m);
        assert(u64s_of(b, o, n).drop_last() =~= u64s_of(b, o, m));
        lemma_write_u64(b, o + 8 * m);
        assert(b.subrange(o, o + 8 * n) =~= b.subrange(o, o + 8 * m) + b.subrange(
            o + 8 * m,
            o + 8 * n,
        ));
    } else {
        assert(u64s_of(b, o, 0) =~= Seq::empty());
        assert(b.subrange(o, o) =~= Seq::empty());
    }
}

/// A superblock that fills its block.
pub open spec fn nx_storable(sb: NxView) -> bool {
    &&& sb.header.checksum.len() == 8
    &&& sb.header.object_type() == OBJECT_TYPE_NX_SUPERBLOCK
    &&& sb.magic == NX_MAGIC
    &&& sb.uuid.len() == 16
    &&& sb.fs_oids.len() == NX_MAX_FILE_SYSTEMS
    &&& sb.block_size >= NX_TRAILING_OFFSET
    &&& sb.trailing.len() == sb.block_size - NX_TRAILING_OFFSET
    &&& sb.block_size % 4 == 0
}

proof fn lemma_front_fields(b: Seq<u8>, sb: NxView)
    requires
        b.len() >= 176,
        sb.uuid.len() == 16,
        b.subrange(32, 176) == sb.front_bytes(),
    ensures
        le_u32(b, 32) == sb.magic,
        le_u32(b, 36) == sb.block_size,
        le_u64(b, 40) == sb.block_count,
        le_u64(b, 48) == sb.features,
        le_u64(b, 56) == sb.readonly_compatible_features,
        le_u64(b, 64) == sb.incompatible_features,
        b.subrange(72, 88) == sb.uuid,
        le_u64(b, 88) == sb.next_oid,
        le_u64(b, 96) == sb.next_xid,
        le_u32(b, 104) == sb.xp_desc_blocks,
        le_u32(b, 108) == sb.xp_data_blocks,
        le_u64(b, 112) == sb.xp_desc_base,
        le_u64(b, 120) == sb.xp_data_base,
        le_u32(b, 128) == sb.xp_desc_next,
        le_u32(b, 132) == sb.xp_data_next,
        le_u32(b, 136) == sb.xp_desc_index,
        le_u32(b, 140) == sb.xp_desc_len,
        le_u32(b, 144) == sb.xp_data_index,
        le_u32(b, 148) == sb.xp_data_len,
        le_u64(b, 152) == sb.spaceman_oid,
        le_u64(b, 160) == sb.omap_oid,
        le_u64(b, 168) == sb.reaper_oid,
{
    broadcast use group_bytes_len;

    let s = b.subrange(32, 176);
    let f = sb.front_bytes();
    lemma_front_parts(sb);
    assert(b.subrange(72, 88) =~= s.subrange(40, 56));
    assert(b.subrange(32, 36) =~= s.subrange(0, 4));
    assert(b.subrange(36, 40) =~= s.subrange(4, 8));
    assert(b.subrange(40, 48) =~= s.subrange(8, 16));
    assert(b.subrange(48, 56) =~= s.subrange(16, 24));
    assert(b.subrange(56, 64) =~= s.subrange(24, 32));
    assert(b.subrange(64, 72) =~= s.subrange(32, 40));
    assert(b.subrange(88, 96) =~= s.subrange(56, 64));
    assert(b.subrange(96, 104) =~= s.subrange(64, 72));
    assert(b.subrange(104, 108) =~= s.subrange(72, 76));
    assert(b.subrange(108, 112) =~= s.subrange(76, 80));
    assert(b.subrange(112, 120) =~= s.subrange(80, 88));
    assert(b.subrange(120, 128) =~= s.subrange(88, 96));
    assert(b.subrange(128, 132) =~= s.subrange(96, 100));
    assert(b.subrange(132, 136) =~= s.subrange(100, 104));
    assert(b.subrange(136, 140) =~= s.subrange(104, 108));
    assert(b.subrange(140, 144) =~= s.subrange(108, 112));
    assert(b.subrange(144, 148) =~= s.subrange(112, 116));
    assert(b.subrange(148, 152) =~= s.subrange(116, 120));
    assert(b.subrange(152, 160) =~= s.subrange(120, 128));
    assert(b.subrange(160, 168) =~= s.subrange(128, 136));
    assert(b.subrange(168, 176) =~= s.subrange(136, 144));
    lemma_read_u32(b, 32, sb.magic);
    lemma_read_u32(b, 36, sb.block_size);
    lemma_read_u64(b, 40, sb.block_count);
    lemma_read_u64(b, 48, sb.features);
    lemma_read_u64(b, 56, sb.readonly_compatible_features);
    lemma_read_u64(b, 64, sb.incompatible_features);
    lemma_read_u64(b, 88, sb.next_oid);
    lemma_read_u64(b, 96, sb.next_xid);
    lemma_read_u32(b, 104, sb.xp_desc_blocks);
    lemma_read_u32(b, 108, sb.xp_data_blocks);
    lemma_read_u64(b, 112, sb.xp_desc_base);
    lemma_read_u64(b, 120, sb.xp_data_base);
    lemma_read_u32(b, 128, sb.xp_desc_next);
    lemma_read_u32(b, 132, sb.xp_data_next);
    lemma_read_u32(b, 136, sb.xp_desc_index);
    lemma_read_u32(b, 140, sb.xp_desc_len);
    lemma_read_u32(b, 144, sb.xp_data_index);
    lemma_read_u32(b, 148, sb.xp_data_len);
    lemma_read_u64(b, 152, sb.spaceman_oid);
    lemma_read_u64(b, 160, sb.omap_oid);
    lemma_read_u64(b, 168, sb.reaper_oid);
}

proof fn lemma_front_parts(sb: NxView)
    requires
        sb.uuid.len() == 16,
    ensures
        sb.front_bytes().len() == 144,
        sb.front_bytes().subrange(0, 4) == bytes_u32(sb.magic),
        sb.front_bytes().subrange(4, 8) == bytes_u32(sb.block_size),
        sb.front_bytes().subrange(8, 16) == bytes_u64(sb.block_count),
        sb.front_bytes().subrange(16, 24) == bytes_u64(sb.features),
        sb.front_bytes().subrange(24, 32) == bytes_u64(sb.readonly_compatible_features),
        sb.front_bytes().subrange(32, 40) == bytes_u64(sb.incompatible_features),
        sb.front_bytes().subrange(40, 56) == sb.uuid,
        sb.front_bytes().subrange(56, 64) == bytes_u64(sb.next_oid),
        sb.front_bytes().subrange(64, 72) == bytes_u64(sb.next_xid),
        sb.front_bytes().subrange(72, 76) == bytes_u32(sb.xp_desc_blocks),
        sb.front_bytes().subrange(76, 80) == bytes_u32(sb.xp_data_blocks),
        sb.front_bytes().subrange(80, 88) == bytes_u64(sb.xp_desc_base),
        sb.front_bytes().subrange(88, 96) == bytes_u64(sb.xp_data_base),
        sb.front_bytes().subrange(96, 100) == bytes_u32(sb.xp_desc_next),
        sb.front_bytes().subrange(100, 104) == bytes_u32(sb.xp_data_next),
        sb.front_bytes().subrange(104, 108) == bytes_u32(sb.xp_desc_index),
        sb.front_bytes().subrange(108, 112) == bytes_u32(sb.xp_desc_len),
        sb.front_bytes().subrange(112, 116) == bytes_u32(sb.xp_data_index),
        sb.front_bytes().subrange(116, 120) == bytes_u32(sb.xp_data_len),
        sb.front_bytes().subrange(120, 128) == bytes_u64(sb.spaceman_oid),
        sb.front_bytes().subrange(128, 136) == bytes_u64(sb.omap_oid),
        sb.front_bytes().subrange(136, 144) == bytes_u64(sb.reaper_oid),
{
    broadcast use group_bytes_len;

    let f = sb.front_bytes();
    assert(f.subrange(0, 4) =~= bytes_u32(sb.magic));
    assert(f.subrange(4, 8) =~= bytes_u32(sb.block_size));
    assert(f.subrange(8, 16) =~= bytes_u64(sb.block_count));
    assert(f.subrange(16, 24) =~= bytes_u64(sb.features));
    assert(f.subrange(24, 32) =~= bytes_u64(sb.readonly_compatible_features));
    assert(f.subrange(32, 40) =~= bytes_u64(sb.incompatible_features));
    assert(f.subrange(40, 56) =~= sb.uuid);
    assert(f.subrange(56, 64) =~= bytes_u64(sb.next_oid));
    assert(f.subrange(64, 72) =~= bytes_u64(sb.next_xid));
    assert(f.subrange(72, 76) =~= bytes_u32(sb.xp_desc_blocks));
    assert(f.subrange(76, 80) =~= bytes_u32(sb.xp_data_blocks));
    assert(f.subrange(80, 88) =~= bytes_u64(sb.xp_desc_base));
    assert(f.subrange(88, 96) =~= bytes_u64(sb.xp_data_base));
    assert(f.subrange(96, 100) =~= bytes_u32(sb.xp_desc_next));
    assert(f.subrange(100, 104) =~= bytes_u32(sb.xp_data_next));
    assert(f.subrange(104, 108) =~= bytes_u32(sb.xp_desc_index));
    assert(f.subrange(108, 112) =~= bytes_u32(sb.xp_desc_len));
    assert(f.subrange(112, 116) =~= bytes_u32(sb.xp_data_index));
    assert(f.subrange(116, 120) =~= bytes_u32(sb.xp_data_len));
    assert(f.subrange(120, 128) =~= bytes_u64(sb.spaceman_oid));
    assert(f.subrange(128, 136) =~= bytes_u64(sb.omap_oid));
    assert(f.subrange(136, 144) =~= bytes_u64(sb.reaper_oid));
}

/// The parts of the block that a storable superblock is written as.
proof fn lemma_body_parts(sb: NxView, buf: Seq<u8>)
    requires
        nx_storable(sb),
        buf.len() == sb.block_size,
    ensures
        sb.body_written(buf).len() == buf.len(),
        sb.body_written(buf).subrange(0, 32) == sb.header.encode(),
        sb.body_written(buf).subrange(32, 176) == sb.front_bytes(),
        sb.body_written(buf).subrange(176, 180) == buf.subrange(176, 180),
        sb.body_written(buf).subrange(180, 184) == bytes_u32(sb.max_file_systems),
        sb.body_written(buf).subrange(184, 984) == u64s_bytes(sb.fs_oids),
        sb.body_written(buf).subrange(984, buf.len() as int) == sb.trailing,
{
    broadcast use group_bytes_len;

    lemma_front_parts(sb);
    lemma_u64s_len(sb.fs_oids);
    let w = sb.body_written(buf);
    assert(sb.header.encode().len() == 32);
    assert(sb.back_bytes().len() == 804);
    assert(w.subrange(0, 32) =~= sb.header.encode());
    assert(w.subrange(32, 176) =~= sb.front_bytes());
    assert(w.subrange(176, 180) =~= buf.subrange(176, 180));
    assert(w.subrange(180, 184) =~= bytes_u32(sb.max_file_systems));
    assert(w.subrange(184, 984) =~= u64s_bytes(sb.fs_oids));
    assert(w.subrange(984, buf.len() as int) =~= sb.trailing);
}

/// Writing a container superblock and parsing the block gives it back, with
/// the fresh checksum in its header, and the block is intact.
pub proof fn law_nx_write_then_parse(sb: NxView, buf: Seq<u8>)
    requires
        nx_storable(sb),
        buf.len() == sb.block_size,
    ensures
        sb.write_outcome(buf).0 is Ok,
        intact(sb.write_outcome(buf).1),
        nx_outcome(sb.write_outcome(buf).1) == Ok::<NxView, Fault>(
            NxView {
                header: HeaderView {
                    checksum: sb.write_outcome(buf).1.subrange(0, 8),
                    ..sb.header
                },
                ..sb
            },
        ),
{
    broadcast use group_bytes_len;

    let w = sb.body_written(buf);
    let out = sealed(w);
    let n = buf.len() as int;
    lemma_body_parts(sb, buf);
    law_sealed_is_intact(w);
    let tail = out.subrange(8, n);
    assert(tail == w.subrange(8, n));
    assert forall|x: int, y: int| 8 <= x <= y <= n implies #[trigger] out.subrange(x, y)
        == w.subrange(x, y) by {
        assert(out.subrange(x, y) =~= tail.subrange(x - 8, y - 8));
        assert(w.subrange(x, y) =~= w.subrange(8, n).subrange(x - 8, y - 8));
    }
    assert(out.subrange(32, 176) == sb.front_bytes());
    lemma_front_fields(out, sb);
    assert(out.subrange(180, 184) == bytes_u32(sb.max_file_systems));
    lemma_read_u32(out, 180, sb.max_file_systems);
    assert(out.subrange(184, 984) == u64s_bytes(sb.fs_oids));
    lemma_u64s_back(out, 184, sb.fs_oids);
    assert(out.subrange(984, n) == sb.trailing);
    let h = sb.header;
    let e = h.encode();
    assert(out.subrange(8, 16) == w.subrange(8, 16));
    assert(w.subrange(8, 16) =~= e.subrange(8, 16));
    assert(e.subrange(8, 16) =~= bytes_u64(h.oid));
    assert(out.subrange(16, 24) == w.subrange(16, 24));
    assert(w.subrange(16, 24) =~= e.subrange(16, 24));
    assert(e.subrange(16, 24) =~= bytes_u64(h.xid));
    assert(out.subrange(24, 28) == w.subrange(24, 28));
    assert(w.subrange(24, 28) =~= e.subrange(24, 28));
    assert(e.subrange(24, 28) =~= bytes_u32(h.raw_type));
    assert(out.subrange(28, 32) == w.subrange(28, 32));
    assert(w.subrange(28, 32) =~= e.subrange(28, 32));
    assert(e.subrange(28, 32) =~= bytes_u32(h.subtype));
    lemma_read_u64(out, 8, h.oid);
    lemma_read_u64(out, 16, h.xid);
    lemma_read_u32(out, 24, h.raw_type);
    lemma_read_u32(out, 28, h.subtype);
    assert(nx_of(out) =~= (NxView {
        header: HeaderView { checksum: out.subrange(0, 8), ..sb.header },
        ..sb
    }));
}

/// Writing what was parsed from an intact block gives the block back byte by
/// byte, given that the buffer holds the same four untracked bytes.
pub proof fn law_nx_parse_then_write(b: Seq<u8>, buf: Seq<u8>)
    requires
        nx_outcome(b) is Ok,
        nx_of(b).block_size == b.len(),
        buf.len() == b.len(),
        buf.subrange(176, 180) == b.subrange(176, 180),
        intact(b),
    ensures
        nx_of(b).write_outcome(buf) == (Ok::<(), Fault>(()), b),
{
    let sb = nx_of(b);
    let n = b.len() as int;
    let w = sb.body_written(buf);
    lemma_body_parts(sb, buf);
    law_header_writeback(b);
    lemma_front_forth(b);
    lemma_write_u32(b, 180);
    lemma_u64s_forth(b, 184, 100);
    assert(w.subrange(0, 32) == b.subrange(0, 32));
    assert(w.subrange(32, 176) == b.subrange(32, 176));
    assert(w.subrange(184, 984) == b.subrange(184, 984));
    lemma_same_pieces(w, b);
    lemma_sealed_intact_block(b);
}

proof fn lemma_same_pieces(w: Seq<u8>, b: Seq<u8>)
    requires
        w.len() == b.len(),
        b.len() >= 984,
        w.subrange(0, 32) == b.subrange(0, 32),
        w.subrange(32, 176) == b.subrange(32, 176),
        w.subrange(176, 180) == b.subrange(176, 180),
        w.subrange(180, 184) == b.subrange(180, 184),
        w.subrange(184, 984) == b.subrange(184, 984),
        w.subrange(984, b.len() as int) == b.subrange(984, b.len() as int),
    ensures
        w == b,
{
    let n = b.len() as int;
    assert(w =~= w.subrange(0, 32) + w.subrange(32, 176) + w.subrange(176, 180) + w.subrange(
        180,
        184,
    ) + w.subrange(184, 984) + w.subrange(984, n));
    assert(b =~= b.subrange(0, 32) + b.subrange(32, 176) + b.subrange(176, 180) + b.subrange(
        180,
        184,
    ) + b.subrange(184, 984) + b.subrange(984, n));
}

/// Sealing an intact block changes nothing.
proof fn lemma_sealed_intact_block(b: Seq<u8>)
    requires
        intact(b),
    ensures
        sealed(b) == b,
{
    broadcast use group_bytes_len;

    lemma_write_u64(b, 0);
    let front = b.subrange(0, 8);
    assert(bytes_u64(le_u64(b, 0)) == front);
    assert forall|i: int| 0 <= i < b.len() implies sealed(b)[i] == b[i] by {
        if i < 8 {
            assert(front[i] == b[i]);
        }
    }
    assert(sealed(b) =~= b);
}

proof fn lemma_front_forth(b: Seq<u8>)
    requires
        b.len() >= 176,
    ensures
        nx_of(b).front_bytes() == b.subrange(32, 176),
{
    broadcast use group_bytes_len;

    lemma_write_u32(b, 32);
    lemma_write_u32(b, 36);
    lemma_write_u64(b, 40);
    lemma_write_u64(b, 48);
    lemma_write_u64(b, 56);
    lemma_write_u64(b, 64);
    lemma_write_u64(b, 88);
    lemma_write_u64(b, 96);
    lemma_write_u32(b, 104);
    lemma_write_u32(b, 108);
    lemma_write_u64(b, 112);
    lemma_write_u64(b, 120);
    lemma_write_u32(b, 128);
    lemma_write_u32(b, 132);
    lemma_write_u32(b, 136);
    lemma_write_u32(b, 140);
    lemma_write_u32(b, 144);
    lemma_write_u32(b, 148);
    lemma_write_u64(b, 152);
    lemma_write_u64(b, 160);
    lemma_write_u64(b, 168);
    assert(nx_of(b).front_bytes() =~= b.subrange(32, 176));
}

/// The superblock that is picked is at least as new as the seed and as every
/// intact superblock of the ring.
pub proof fn law_latest_nx_is_newest(disk: Seq<u8>, seed: NxView, i: int)
    requires
        0 <= i < seed.xp_desc_blocks,
    ensures
        newest_nx(disk, seed, 0, seed).header.xid >= seed.header.xid,
        ring_nx(disk, seed, i) matches Some(sb) ==> newest_nx(disk, seed, 0, seed).header.xid
            >= sb.header.xid,
{
    lemma_newest_nx(disk, seed, 0, seed, i);
}

proof fn lemma_newest_nx(disk: Seq<u8>, seed: NxView, at: int, best: NxView, i: int)
    ensures
        newest_nx(disk, seed, at, best).header.xid >= best.header.xid,
        at <= i < seed.xp_desc_blocks ==> (ring_nx(disk, seed, i) matches Some(sb) ==> newest_nx(
            disk,
            seed,
            at,
            best,
        ).header.xid >= sb.header.xid),
    decreases seed.xp_desc_blocks - at,
{
    if at < seed.xp_desc_blocks {
        let next = match ring_nx(disk, seed, at) {
            Some(sb) => if sb.header.xid > best.header.xid { sb } else { best },
            None => best,
        };
        lemma_newest_nx(disk, seed, at + 1, next, i);
    }
}

} // verus!
