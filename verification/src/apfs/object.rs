//! Object header (`obj_phys_t`) and the object types that are consumed.
//!
//! Every managed block starts with a 32-byte preamble: 8-byte Fletcher
//! checksum, 64-bit OID, 64-bit XID, then `(type, subtype)` 32-bit pairs.

use crate::apfs::fletcher;
use crate::apfs::bytes::{
    bytes_u32, bytes_u64, group_bytes_len, le_u32, le_u64, lemma_read_u32, lemma_read_u64,
    lemma_write_u32, lemma_write_u64, push_u32, push_u64, put_bytes, rd_u32, rd_u64, splice,
};
use crate::apfs::device::{in_range, ReadAt};
use crate::apfs::error::{outcome, plain, ApfsError, Fault, IoError};
use crate::apfs::fletcher::intact;
use vstd::prelude::*;

verus! {

pub const OBJECT_HEADER_SIZE: usize = 32;

/// Low 16 bits of `o_type`: the type.
pub const TYPE_MASK: u32 = 0x0000_FFFF;

/// High 16 bits of `o_type`: flag bits.
pub const FLAG_MASK: u32 = 0xFFFF_0000;

pub const OBJECT_TYPE_NX_SUPERBLOCK: u16 = 0x01;

pub const OBJECT_TYPE_BTREE: u16 = 0x02;

pub const OBJECT_TYPE_BTREE_NODE: u16 = 0x03;

pub const OBJECT_TYPE_SPACEMAN: u16 = 0x05;

pub const OBJECT_TYPE_SPACEMAN_CAB: u16 = 0x06;

pub const OBJECT_TYPE_SPACEMAN_CIB: u16 = 0x07;

pub const OBJECT_TYPE_SPACEMAN_BITMAP: u16 = 0x08;

pub const OBJECT_TYPE_OMAP: u16 = 0x0B;

pub const OBJECT_TYPE_CHECKPOINT_MAP: u16 = 0x0C;

pub const OBJECT_TYPE_FS: u16 = 0x0D;

pub const OBJECT_TYPE_FSTREE: u16 = 0x0E;

pub const OBJECT_TYPE_INVALID: u16 = 0x00;

/// Parsed 32-byte object header.
#[derive(Debug, Clone, Copy, PartialEq, Eq)]
pub struct ObjectHeader {
    pub checksum: [u8; 8],
    pub oid: u64,
    pub xid: u64,
    pub raw_type: u32,
    pub subtype: u32,
}

/// The contents of an [`ObjectHeader`].
#[verifier::ext_equal]
pub struct HeaderView {
    pub checksum: Seq<u8>,
    pub oid: u64,
    pub xid: u64,
    pub raw_type: u32,
    pub subtype: u32,
}

impl View for ObjectHeader {
    type V = HeaderView;

    open spec fn view(&self) -> HeaderView {
        HeaderView {
            checksum: self.checksum@,
            oid: self.oid,
            xid: self.xid,
            raw_type: self.raw_type,
            subtype: self.subtype,
        }
    }
}

/// The header that the first 32 bytes of `b` hold.
pub open spec fn header_of(b: Seq<u8>) -> HeaderView {
    HeaderView {
        checksum: b.subrange(0, 8),
        oid: le_u64(b, 8),
        xid: le_u64(b, 16),
        raw_type: le_u32(b, 24),
        subtype: le_u32(b, 28),
    }
}

/// The object type inside `o_type`.
pub open spec fn type_of(raw_type: u32) -> u16 {
    (raw_type & TYPE_MASK) as u16
}

/// The flags inside `o_type`.
pub open spec fn flags_of(raw_type: u32) -> u16 {
    ((raw_type & FLAG_MASK) >> 16) as u16
}

impl HeaderView {
    /// The 32 bytes of the header.
    pub open spec fn encode(self) -> Seq<u8> {
        self.checksum + bytes_u64(self.oid) + bytes_u64(self.xid) + bytes_u32(self.raw_type)
            + bytes_u32(self.subtype)
    }

    pub open spec fn object_type(self) -> u16 {
        type_of(self.raw_type)
    }
}

/// A header that is read from a buffer, or the complaint that the buffer is
/// too short.
pub open spec fn header_outcome(b: Seq<u8>) -> Result<HeaderView, Fault> {
    if b.len() < OBJECT_HEADER_SIZE {
        Err(Fault::Truncated { need: OBJECT_HEADER_SIZE as int, have: b.len() as int })
    } else {
        Ok(header_of(b))
    }
}

impl ObjectHeader {
    pub const SIZE: usize = 32;

    pub fn parse(bytes: &[u8]) -> (r: Result<Self, ApfsError>)
        ensures
            outcome(r) == header_outcome(bytes@),
    {
        if bytes.len() < OBJECT_HEADER_SIZE {
            return Err(ApfsError::Truncated { need: OBJECT_HEADER_SIZE, have: bytes.len() });
        }
        let checksum = [
            bytes[0],
            bytes[1],
            bytes[2],
            bytes[3],
            bytes[4],
            bytes[5],
            bytes[6],
            bytes[7],
        ];
        assert(checksum@ =~= bytes@.subrange(0, 8));
        Ok(
            ObjectHeader {
                checksum,
                oid: rd_u64(bytes, 8),
                xid: rd_u64(bytes, 16),
                raw_type: rd_u32(bytes, 24),
                subtype: rd_u32(bytes, 28),
            },
        )
    }

    /// The 32 bytes of the header.
    pub fn to_bytes(&self) -> (v: Vec<u8>)
        ensures
            v@ == self@.encode(),
            v@.len() == 32,
    {
        broadcast use group_bytes_len;

        let mut v: Vec<u8> = Vec::new();
        let mut i: usize = 0;
        while i < 8
            invariant
                i <= 8,
                v@ == self.checksum@.subrange(0, i as int),
            decreases 8 - i,
        {
            v.push(self.checksum[i]);
            assert(v@ =~= self.checksum@.subrange(0, i + 1));
            i += 1;
        }
        assert(self.checksum@.subrange(0, 8) =~= self.checksum@);
        push_u64(&mut v, self.oid);
        push_u64(&mut v, self.xid);
        push_u32(&mut v, self.raw_type);
        push_u32(&mut v, self.subtype);
        v
    }

    pub fn write_into(&self, buf: &mut [u8]) -> (r: Result<(), ApfsError>)
        ensures
            old(buf)@.len() < OBJECT_HEADER_SIZE ==> final(buf)@ == old(buf)@ && plain(r) == Err::<
                (),
                Fault,
            >(
                Fault::Truncated {
                    need: OBJECT_HEADER_SIZE as int,
                    have: old(buf)@.len() as int,
                },
            ),
            old(buf)@.len() >= OBJECT_HEADER_SIZE ==> r is Ok && final(buf)@ == splice(
                old(buf)@,
                0,
                self@.encode(),
            ),
    {
        if buf.len() < OBJECT_HEADER_SIZE {
            return Err(ApfsError::Truncated { need: OBJECT_HEADER_SIZE, have: buf.len() });
        }
        let v = self.to_bytes();
        put_bytes(buf, 0, v.as_slice());
        Ok(())
    }

    pub fn object_type(&self) -> (t: u16)
        ensures
            t == self@.object_type(),
    {
        (self.raw_type & TYPE_MASK) as u16
    }

    pub fn flags(&self) -> (f: u16)
        ensures
            f == flags_of(self.raw_type),
    {
        ((self.raw_type & FLAG_MASK) >> 16) as u16
    }

    pub fn expect_type(&self, expected: u16) -> (r: Result<(), ApfsError>)
        ensures
            plain(r) == expect_type_outcome(self@, expected),
    {
        if self.object_type() == expected {
            Ok(())
        } else {
            Err(ApfsError::BadObjectType { expected, actual: self.object_type() })
        }
    }
}

/// Success when the header is of the expected type.
pub open spec fn expect_type_outcome(h: HeaderView, expected: u16) -> Result<(), Fault> {
    if h.object_type() == expected {
        Ok(())
    } else {
        Err(Fault::BadObjectType { expected, actual: h.object_type() })
    }
}

/// Agreement of an outcome with what the device's contents call for. A device
/// that is not reliable may refuse a request, and this is then what is told.
pub open spec fn agrees<T>(r: Result<T, Fault>, called_for: Result<T, Fault>, reliable: bool) -> bool {
    r == called_for || (!reliable && refused(r))
}

/// Whether an outcome says that the device refused a request.
pub open spec fn refused<T>(r: Result<T, Fault>) -> bool {
    r matches Err(Fault::Io(_))
}

/// The block at physical address `paddr`.
pub open spec fn block_at(disk: Seq<u8>, paddr: u64, block_size: u32) -> Seq<u8> {
    disk.subrange(paddr * block_size, paddr * block_size + block_size)
}

/// What reading the block at `paddr` gives.
pub open spec fn block_outcome(disk: Seq<u8>, paddr: u64, block_size: u32) -> Result<Seq<u8>, Fault> {
    if in_range(disk.len(), paddr * block_size, block_size as int) {
        Ok(block_at(disk, paddr, block_size))
    } else {
        Err(Fault::Io(IoError::UnexpectedEof))
    }
}

/// What reading the block at `paddr` gives when its checksum has to match.
pub open spec fn verified_block_outcome(disk: Seq<u8>, paddr: u64, block_size: u32) -> Result<
    Seq<u8>,
    Fault,
> {
    match block_outcome(disk, paddr, block_size) {
        Err(e) => Err(e),
        Ok(b) => if intact(b) { Ok(b) } else { Err(Fault::BadChecksum) },
    }
}

/// Read one block (`block_size` bytes) at physical address `paddr`. The
/// Fletcher-64 checksum is not verified: many ephemeral objects carry stale
/// checksums until they are next written. Callers that need a checksum
/// guarantee must use [`read_block_verified`].
pub fn read_block<D: ReadAt>(dev: &D, paddr: u64, block_size: u32) -> (r: Result<Vec<u8>, ApfsError>)
    ensures
        agrees(outcome(r), block_outcome(dev.bytes(), paddr, block_size), dev.reliable()),
{
    assert(paddr * block_size >= 0) by (nonlinear_arith);
    match paddr.checked_mul(block_size as u64) {
        None => {
            let _n: u64 = dev.size();
            Err(ApfsError::Io(IoError::UnexpectedEof))
        },
        Some(offset) => match dev.read_at(offset, block_size as usize) {
            Ok(v) => Ok(v),
            Err(e) => Err(ApfsError::Io(e)),
        },
    }
}

/// Read a block and verify its Fletcher-64 checksum.
pub fn read_block_verified<D: ReadAt>(dev: &D, paddr: u64, block_size: u32) -> (r: Result<
    Vec<u8>,
    ApfsError,
>)
    ensures
        agrees(outcome(r), verified_block_outcome(dev.bytes(), paddr, block_size), dev.reliable()),
{
    let buf = read_block(dev, paddr, block_size)?;
    if !fletcher::verify_object(buf.as_slice()) {
        return Err(ApfsError::BadChecksum);
    }
    Ok(buf)
}

/// Same as [`read_block`]; the name tells checkpoint-ring scanners that no
/// checksum is looked at.
pub fn read_block_unchecked<D: ReadAt>(dev: &D, paddr: u64, block_size: u32) -> (r: Result<
    Vec<u8>,
    ApfsError,
>)
    ensures
        agrees(outcome(r), block_outcome(dev.bytes(), paddr, block_size), dev.reliable()),
{
    read_block(dev, paddr, block_size)
}

/// Parsing gives back what was written over the front of a buffer.
pub proof fn law_header_roundtrip(h: HeaderView, buf: Seq<u8>)
    requires
        h.checksum.len() == 8,
        buf.len() >= OBJECT_HEADER_SIZE,
    ensures
        h.encode().len() == OBJECT_HEADER_SIZE,
        header_of(splice(buf, 0, h.encode())) == h,
{
    broadcast use group_bytes_len;

    let e = h.encode();
    let s = splice(buf, 0, e);
    assert(s.subrange(0, 8) =~= h.checksum);
    assert(s.subrange(8, 16) =~= bytes_u64(h.oid));
    assert(s.subrange(16, 24) =~= bytes_u64(h.xid));
    assert(s.subrange(24, 28) =~= bytes_u32(h.raw_type));
    assert(s.subrange(28, 32) =~= bytes_u32(h.subtype));
    lemma_read_u64(s, 8, h.oid);
    lemma_read_u64(s, 16, h.xid);
    lemma_read_u32(s, 24, h.raw_type);
    lemma_read_u32(s, 28, h.subtype);
}

/// Writing gives back the bytes that were parsed.
pub proof fn law_header_writeback(b: Seq<u8>)
    requires
        b.len() >= OBJECT_HEADER_SIZE,
    ensures
        header_of(b).encode() == b.subrange(0, 32),
{
    broadcast use group_bytes_len;

    lemma_write_u64(b, 8);
    lemma_write_u64(b, 16);
    lemma_write_u32(b, 24);
    lemma_write_u32(b, 28);
    assert(header_of(b).encode() =~= b.subrange(0, 32));
}

/// Type and flags together are the whole of `o_type`.
pub proof fn law_type_and_flags_split(raw_type: u32)
    ensures
        type_of(raw_type) + flags_of(raw_type) * 0x1_0000 == raw_type,
{
    assert(((raw_type & 0x0000_FFFFu32) as u16) + (((raw_type & 0xFFFF_0000u32) >> 16) as u16)
        * 0x1_0000 == raw_type) by (bit_vector);
}

} // verus!
