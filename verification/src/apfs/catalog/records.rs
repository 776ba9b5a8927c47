//! The records of the catalog: keys, inodes, directory records and extents.

use crate::apfs::bytes::{
    bytes_i32, bytes_i64, bytes_u16, bytes_u32, bytes_u64, group_bytes_len, le_i32, le_i64, le_u16,
    le_u32, le_u64, lemma_read_i32, lemma_read_i64, lemma_read_u16, lemma_read_u32, lemma_read_u64,
    push_bytes, push_i32, push_i64, push_u16, push_u32, push_u64, put_bytes, rd_i32, rd_i64, rd_u16,
    rd_u32, rd_u64, splice,
};
use crate::apfs::error::{bad_btree, outcome, plain, ApfsError, Fault};
use crate::apfs::packed::{law_pack_unpack, packed, packed_kind, packed_number, KIND_UNIT};
use crate::apfs::superblock::{cstring_text, decode_cstring, nul_at};
use crate::apfs::text::{decimal_string_wide, msg1, msg2, text1, text2, text_str};
use vstd::slice::slice_subrange;
use vstd::utf8::{
    encode_scalar, encode_utf8, encode_utf8_decode_utf8, encode_utf8_valid_utf8,
    has_width_1_encoding, last_continuation_byte, leading_byte_width_1, leading_byte_width_2,
    leading_byte_width_3, leading_byte_width_4, second_last_continuation_byte,
    third_last_continuation_byte,
};
use vstd::prelude::*;

verus! {

pub const J_TYPE_SNAP_METADATA: u8 = 1;

pub const J_TYPE_EXTENT: u8 = 2;

pub const J_TYPE_INODE: u8 = 3;

pub const J_TYPE_XATTR: u8 = 4;

pub const J_TYPE_SIBLING_LINK: u8 = 5;

pub const J_TYPE_DSTREAM_ID: u8 = 6;

pub const J_TYPE_CRYPTO_STATE: u8 = 7;

pub const J_TYPE_FILE_EXTENT: u8 = 8;

pub const J_TYPE_DIR_REC: u8 = 9;

pub const J_TYPE_DIR_STATS: u8 = 10;

pub const J_TYPE_SNAP_NAME: u8 = 11;

pub const J_TYPE_SIBLING_MAP: u8 = 12;

/// The parent of the root directory.
pub const ROOT_DIR_PARENT: u64 = 1;

/// The root directory.
pub const ROOT_DIR_RECORD: u64 = 2;

/// `mode` bits of a directory.
pub const INODE_DIR_TYPE: u16 = 0o040000;

/// `mode` bits of a regular file.
pub const INODE_FILE_TYPE: u16 = 0o100000;

/// `mode` bits of a symbolic link.
pub const INODE_SYMLINK_TYPE: u16 = 0o120000;

/// The bits of `mode` that tell the kind.
pub const INODE_KIND_MASK: u16 = 0o170000;

/// Extended-field tag that carries a `j_dstream_t`.
pub const INO_EXT_TYPE_DSTREAM: u8 = 8;

/// `dirent.h`-style file types embedded in `j_drec_val_t.flags`.
pub const DT_REG: u16 = 8;

pub const DT_DIR: u16 = 4;

pub const DT_LNK: u16 = 10;

/// The 8 bytes of `obj_id_and_type`.
pub open spec fn key_head(oid: u64, j_type: u8) -> Seq<u8> {
    bytes_u64(packed(oid, j_type as int))
}

/// The object identifier in a key.
pub open spec fn key_oid(k: Seq<u8>) -> u64 {
    packed_number(le_u64(k, 0))
}

/// The record type in a key.
pub open spec fn key_type(k: Seq<u8>) -> u8 {
    packed_kind(le_u64(k, 0))
}

/// Object identifier and record type of a key.
pub open spec fn key_outcome(k: Seq<u8>) -> Result<(u64, u8), Fault> {
    if k.len() < 8 {
        Err(Fault::BadBTree("catalog key too short"@))
    } else {
        Ok((key_oid(k), key_type(k)))
    }
}

/// Append `(oid, j_type)` as `obj_id_and_type`.
pub fn push_key_head(out: &mut Vec<u8>, oid: u64, j_type: u8)
    ensures
        final(out)@ == old(out)@ + key_head(oid, j_type),
{
    push_u64(out, oid % KIND_UNIT + (j_type as u64 % 16) * KIND_UNIT);
}

/// Pack `(oid, j_type)` into the 8-byte `obj_id_and_type` field.
pub fn encode_obj_id_and_type(oid: u64, j_type: u8) -> (a: [u8; 8])
    ensures
        a@ == key_head(oid, j_type),
{
    broadcast use group_bytes_len;

    let mut v: Vec<u8> = Vec::new();
    push_key_head(&mut v, oid, j_type);
    assert(v@ =~= key_head(oid, j_type));
    let a = [v[0], v[1], v[2], v[3], v[4], v[5], v[6], v[7]];
    assert(a@ =~= v@);
    a
}

/// Decode a catalog key into `(obj_id, j_type)`: low 60 bits and top 4 bits of
/// the first word.
pub fn decode_catalog_key(key: &[u8]) -> (r: Result<(u64, u8), ApfsError>)
    ensures
        plain(r) == key_outcome(key@),
{
    if key.len() < 8 {
        return Err(bad_btree("catalog key too short"));
    }
    let raw: u64 = rd_u64(key, 0);
    Ok((raw % KIND_UNIT, (raw / KIND_UNIT) as u8))
}

/// Same as [`decode_catalog_key`].
pub fn decode_catalog_key_pub(key: &[u8]) -> (r: Result<(u64, u8), ApfsError>)
    ensures
        plain(r) == key_outcome(key@),
{
    decode_catalog_key(key)
}

/// A key starts with the identifier and type that were packed into it.
pub proof fn law_key_head_roundtrip(oid: u64, j_type: u8, rest: Seq<u8>)
    requires
        oid < KIND_UNIT,
        j_type < 16,
    ensures
        key_outcome(key_head(oid, j_type) + rest) == Ok::<(u64, u8), Fault>((oid, j_type)),
{
    broadcast use group_bytes_len;

    let w = packed(oid, j_type as int);
    let k = key_head(oid, j_type) + rest;
    law_pack_unpack(oid, j_type as int);
    assert(k.subrange(0, 8) =~= bytes_u64(w));
    lemma_read_u64(k, 0, w);
}

/// Decoded inode value (fixed prefix and dstream field, if present).
#[derive(Debug, Clone, Copy)]
pub struct InodeVal {
    pub parent_id: u64,
    pub private_id: u64,
    pub create_time: i64,
    pub modify_time: i64,
    pub change_time: i64,
    pub access_time: i64,
    pub internal_flags: u64,
    pub nchildren_or_nlink: i32,
    pub default_protection_class: u32,
    pub write_generation_counter: u32,
    pub bsd_flags: u32,
    pub uid: u32,
    pub gid: u32,
    pub mode: u16,
    pub pad1: u16,
    pub uncompressed_size: u64,
    /// Logical file size from the dstream field, if the inode carries one.
    pub dstream_size: Option<u64>,
}

/// Size of a field of an extended-field blob, padded to 8 bytes.
pub open spec fn padded(n: int) -> int {
    (n + 7) / 8 * 8
}

/// Where the data of the dstream field stands, among the fields from `i` on.
/// `at` is where the data of field `i` starts.
pub open spec fn dstream_among(b: Seq<u8>, count: int, i: int, at: int) -> Option<int>
    decreases count - i,
{
    if i >= count {
        None
    } else {
        let size = le_u16(b, 4 + 4 * i + 2) as int;
        if b[4 + 4 * i] == INO_EXT_TYPE_DSTREAM && size >= 8 {
            if at + 8 > b.len() { None } else { Some(at) }
        } else {
            dstream_among(b, count, i + 1, at + padded(size))
        }
    }
}

/// Where the data of the dstream field stands in an extended-field blob: a
/// counter, the descriptors (type, flags, size), then the data.
pub open spec fn dstream_pos(b: Seq<u8>) -> Option<int> {
    if b.len() < 4 {
        None
    } else {
        let count = le_u16(b, 0) as int;
        if 4 + 4 * count > b.len() { None } else { dstream_among(b, count, 0, 4 + 4 * count) }
    }
}

/// The logical size in the dstream field.
pub open spec fn dstream_size_of(b: Seq<u8>) -> Option<u64> {
    match dstream_pos(b) {
        Some(at) => Some(le_u64(b, at)),
        None => None,
    }
}

/// The inode that a value holds.
pub open spec fn inode_of(b: Seq<u8>) -> InodeVal {
    InodeVal {
        parent_id: le_u64(b, 0),
        private_id: le_u64(b, 8),
        create_time: le_i64(b, 16),
        modify_time: le_i64(b, 24),
        change_time: le_i64(b, 32),
        access_time: le_i64(b, 40),
        internal_flags: le_u64(b, 48),
        nchildren_or_nlink: le_i32(b, 56),
        default_protection_class: le_u32(b, 60),
        write_generation_counter: le_u32(b, 64),
        bsd_flags: le_u32(b, 68),
        uid: le_u32(b, 72),
        gid: le_u32(b, 76),
        mode: le_u16(b, 80),
        pad1: le_u16(b, 82),
        uncompressed_size: le_u64(b, 84),
        dstream_size: dstream_size_of(b.subrange(92, b.len() as int)),
    }
}

/// The inode that a value holds, or the complaint that it is too short.
pub open spec fn inode_outcome(b: Seq<u8>) -> Result<InodeVal, Fault> {
    if b.len() < 92 {
        Err(Fault::BadCatalog(msg1("inode value too short: "@, b.len(), " bytes"@)))
    } else {
        Ok(inode_of(b))
    }
}

/// The 92 bytes of the fixed part of an inode.
pub open spec fn inode_bytes(i: InodeVal) -> Seq<u8> {
    bytes_u64(i.parent_id) + bytes_u64(i.private_id) + bytes_i64(i.create_time) + bytes_i64(
        i.modify_time,
    ) + bytes_i64(i.change_time) + bytes_i64(i.access_time) + bytes_u64(i.internal_flags)
        + bytes_i32(i.nchildren_or_nlink) + bytes_u32(i.default_protection_class) + bytes_u32(
        i.write_generation_counter,
    ) + bytes_u32(i.bsd_flags) + bytes_u32(i.uid) + bytes_u32(i.gid) + bytes_u16(i.mode)
        + bytes_u16(i.pad1) + bytes_u64(i.uncompressed_size)
}

/// The kind bits of a mode.
pub open spec fn mode_kind(mode: u16) -> u16 {
    mode & INODE_KIND_MASK
}

/// The logical size of a file.
pub open spec fn inode_size(i: InodeVal) -> u64 {
    match i.dstream_size {
        Some(s) => s,
        None => i.uncompressed_size,
    }
}

impl InodeVal {
    /// Fixed on-disk size of `j_inode_val_t` (before extended fields).
    pub const FIXED_SIZE: usize = 92;

    pub fn parse(data: &[u8]) -> (r: Result<Self, ApfsError>)
        ensures
            plain(r) == inode_outcome(data@),
    {
        if data.len() < 92 {
            return Err(
                ApfsError::BadCatalog(
                    text1("inode value too short: ", data.len() as u64, " bytes"),
                ),
            );
        }
        Ok(
            InodeVal {
                parent_id: rd_u64(data, 0),
                private_id: rd_u64(data, 8),
                create_time: rd_i64(data, 16),
                modify_time: rd_i64(data, 24),
                change_time: rd_i64(data, 32),
                access_time: rd_i64(data, 40),
                internal_flags: rd_u64(data, 48),
                nchildren_or_nlink: rd_i32(data, 56),
                default_protection_class: rd_u32(data, 60),
                write_generation_counter: rd_u32(data, 64),
                bsd_flags: rd_u32(data, 68),
                uid: rd_u32(data, 72),
                gid: rd_u32(data, 76),
                mode: rd_u16(data, 80),
                pad1: rd_u16(data, 82),
                uncompressed_size: rd_u64(data, 84),
                dstream_size: parse_dstream_size(slice_subrange(data, 92, data.len())),
            },
        )
    }

    /// File-type bits of `mode`.
    pub fn kind(&self) -> (k: u16)
        ensures
            k == mode_kind(self.mode),
    {
        self.mode & INODE_KIND_MASK
    }

    /// Logical file size: dstream field if present, else `uncompressed_size`.
    pub fn size(&self) -> (n: u64)
        ensures
            n == inode_size(*self),
    {
        match self.dstream_size {
            Some(s) => s,
            None => self.uncompressed_size,
        }
    }

    pub fn nlink(&self) -> (n: u32)
        ensures
            n == self.nchildren_or_nlink as u32,
    {
        self.nchildren_or_nlink as u32
    }

    /// The 92 bytes of the fixed part.
    pub fn fixed_bytes(&self) -> (v: Vec<u8>)
        ensures
            v@ == inode_bytes(*self),
            v@.len() == 92,
    {
        broadcast use group_bytes_len;

        let mut v: Vec<u8> = Vec::new();
        push_u64(&mut v, self.parent_id);
        push_u64(&mut v, self.private_id);
        push_i64(&mut v, self.create_time);
        push_i64(&mut v, self.modify_time);
        push_i64(&mut v, self.change_time);
        push_i64(&mut v, self.access_time);
        push_u64(&mut v, self.internal_flags);
        push_i32(&mut v, self.nchildren_or_nlink);
        push_u32(&mut v, self.default_protection_class);
        push_u32(&mut v, self.write_generation_counter);
        push_u32(&mut v, self.bsd_flags);
        push_u32(&mut v, self.uid);
        push_u32(&mut v, self.gid);
        push_u16(&mut v, self.mode);
        push_u16(&mut v, self.pad1);
        push_u64(&mut v, self.uncompressed_size);
        assert(v@ =~= inode_bytes(*self));
        v
    }

    /// Write the fixed 92-byte prefix into `out`. The caller appends extended
    /// fields.
    pub fn write_fixed(&self, out: &mut [u8]) -> (r: Result<(), ApfsError>)
        ensures
            old(out)@.len() < 92 ==> final(out)@ == old(out)@ && plain(r) == Err::<(), Fault>(
                Fault::BadCatalog(
                    msg2("inode buffer too short: "@, old(out)@.len(), " < "@, 92, ""@),
                ),
            ),
            old(out)@.len() >= 92 ==> r is Ok && final(out)@ == splice(
                old(out)@,
                0,
                inode_bytes(*self),
            ),
    {
        if out.len() < 92 {
            return Err(
                ApfsError::BadCatalog(
                    text2("inode buffer too short: ", out.len() as u64, " < ", 92, ""),
                ),
            );
        }
        let v = self.fixed_bytes();
        put_bytes(out, 0, v.as_slice());
        Ok(())
    }

    /// Concatenate the 92-byte fixed prefix and a blob of extended fields.
    pub fn serialize_with_xfields(&self, xfields: &[u8]) -> (r: Result<Vec<u8>, ApfsError>)
        ensures
            outcome(r) == Ok::<Seq<u8>, Fault>(inode_bytes(*self) + xfields@),
    {
        let mut v = self.fixed_bytes();
        push_bytes(&mut v, xfields);
        Ok(v)
    }
}

/// Locate the data of the dstream field inside a blob of extended fields: the
/// first 8 bytes hold the logical size.
pub fn locate_dstream(blob: &[u8]) -> (r: Option<usize>)
    ensures
        match r {
            Some(at) => dstream_pos(blob@) == Some(at as int) && at + 8 <= blob.len(),
            None => dstream_pos(blob@) is None,
        },
{
    if blob.len() < 4 {
        return None;
    }
    let count: u64 = rd_u16(blob, 0) as u64;
    if 4 + 4 * count > blob.len() as u64 {
        return None;
    }
    let mut i: u64 = 0;
    let mut at: u64 = 4 + 4 * count;
    while i < count
        invariant
            i <= count,
            count == le_u16(blob@, 0),
            blob.len() >= 4,
            4 + 4 * count <= blob.len(),
            at <= 4 + 4 * count + i * 0x1_0007,
            dstream_among(blob@, count as int, 0, 4 + 4 * count) == dstream_among(
                blob@,
                count as int,
                i as int,
                at as int,
            ),
        decreases count - i,
    {
        let desc: usize = 4 + 4 * (i as usize);
        let size: u64 = rd_u16(blob, desc + 2) as u64;
        if blob[desc] == INO_EXT_TYPE_DSTREAM && size >= 8 {
            if at + 8 > blob.len() as u64 {
                return None;
            }
            return Some(at as usize);
        }
        at = at + (size + 7) / 8 * 8;
        i += 1;
    }
    None
}

/// The logical size in the dstream field, if there is one.
pub fn parse_dstream_size(blob: &[u8]) -> (r: Option<u64>)
    ensures
        r == dstream_size_of(blob@),
{
    match locate_dstream(blob) {
        Some(at) => Some(rd_u64(blob, at)),
        None => None,
    }
}

/// Directory record value (`j_drec_val_t`).
#[derive(Debug, Clone, Copy)]
pub struct DrecVal {
    pub file_id: u64,
    pub date_added: i64,
    pub flags: u16,
}

/// The directory record that a value holds.
pub open spec fn drec_outcome(b: Seq<u8>) -> Result<DrecVal, Fault> {
    if b.len() < 18 {
        Err(Fault::BadCatalog(msg1("drec value too short: "@, b.len(), " bytes"@)))
    } else {
        Ok(DrecVal { file_id: le_u64(b, 0), date_added: le_i64(b, 8), flags: le_u16(b, 16) })
    }
}

/// The 18 bytes of a directory record.
pub open spec fn drec_bytes(d: DrecVal) -> Seq<u8> {
    bytes_u64(d.file_id) + bytes_i64(d.date_added) + bytes_u16(d.flags)
}

/// The file type in the flags of a directory record.
pub open spec fn drec_file_type(flags: u16) -> u16 {
    flags & 0x000F
}

impl DrecVal {
    pub const FIXED_SIZE: usize = 18;

    pub fn parse(data: &[u8]) -> (r: Result<Self, ApfsError>)
        ensures
            plain(r) == drec_outcome(data@),
    {
        if data.len() < 18 {
            return Err(
                ApfsError::BadCatalog(
                    text1("drec value too short: ", data.len() as u64, " bytes"),
                ),
            );
        }
        Ok(
            DrecVal {
                file_id: rd_u64(data, 0),
                date_added: rd_i64(data, 8),
                flags: rd_u16(data, 16),
            },
        )
    }

    /// `DT_*` constant from the low nibble of `flags`.
    pub fn file_type(&self) -> (t: u16)
        ensures
            t == drec_file_type(self.flags),
    {
        self.flags & 0x000F
    }

    pub fn write(&self, out: &mut [u8]) -> (r: Result<(), ApfsError>)
        ensures
            old(out)@.len() < 18 ==> final(out)@ == old(out)@ && plain(r) == Err::<(), Fault>(
                Fault::BadCatalog(
                    msg2("drec buffer too short: "@, old(out)@.len(), " < "@, 18, ""@),
                ),
            ),
            old(out)@.len() >= 18 ==> r is Ok && final(out)@ == splice(
                old(out)@,
                0,
                drec_bytes(*self),
            ),
    {
        broadcast use group_bytes_len;

        if out.len() < 18 {
            return Err(
                ApfsError::BadCatalog(
                    text2("drec buffer too short: ", out.len() as u64, " < ", 18, ""),
                ),
            );
        }
        let v = self.to_bytes();
        put_bytes(out, 0, v.as_slice());
        Ok(())
    }

    pub fn to_bytes(&self) -> (v: Vec<u8>)
        ensures
            v@ == drec_bytes(*self),
    {
        let mut v: Vec<u8> = Vec::new();
        push_u64(&mut v, self.file_id);
        push_i64(&mut v, self.date_added);
        push_u16(&mut v, self.flags);
        assert(v@ =~= drec_bytes(*self));
        v
    }
}

/// File extent value (`j_file_extent_val_t`).
#[derive(Debug, Clone, Copy)]
pub struct FileExtentVal {
    /// Top byte: flags; low 56 bits: length in bytes.
    pub flags_and_length: u64,
    pub phys_block_num: u64,
    pub crypto_id: u64,
}

/// One more than the largest length of an extent.
pub const EXTENT_LENGTH_LIMIT: u64 = 0x0100_0000_0000_0000;

/// The extent that a value holds.
pub open spec fn extent_outcome(b: Seq<u8>) -> Result<FileExtentVal, Fault> {
    if b.len() < 24 {
        Err(Fault::BadCatalog(msg1("file extent value too short: "@, b.len(), " bytes"@)))
    } else {
        Ok(
            FileExtentVal {
                flags_and_length: le_u64(b, 0),
                phys_block_num: le_u64(b, 8),
                crypto_id: le_u64(b, 16),
            },
        )
    }
}

/// The 24 bytes of an extent.
pub open spec fn extent_bytes(e: FileExtentVal) -> Seq<u8> {
    bytes_u64(e.flags_and_length) + bytes_u64(e.phys_block_num) + bytes_u64(e.crypto_id)
}

/// The length of an extent in bytes.
pub open spec fn extent_length(e: FileExtentVal) -> u64 {
    e.flags_and_length % EXTENT_LENGTH_LIMIT
}

/// The extent with this length and these flags.
pub open spec fn extent_with(length: u64, flags: u8, phys_block_num: u64, crypto_id: u64) -> FileExtentVal {
    FileExtentVal {
        flags_and_length: (length % EXTENT_LENGTH_LIMIT + flags * EXTENT_LENGTH_LIMIT) as u64,
        phys_block_num,
        crypto_id,
    }
}

impl FileExtentVal {
    pub const FIXED_SIZE: usize = 24;

    pub fn parse(data: &[u8]) -> (r: Result<Self, ApfsError>)
        ensures
            plain(r) == extent_outcome(data@),
    {
        if data.len() < 24 {
            return Err(
                ApfsError::BadCatalog(
                    text1("file extent value too short: ", data.len() as u64, " bytes"),
                ),
            );
        }
        Ok(
            FileExtentVal {
                flags_and_length: rd_u64(data, 0),
                phys_block_num: rd_u64(data, 8),
                crypto_id: rd_u64(data, 16),
            },
        )
    }

    pub fn length(&self) -> (n: u64)
        ensures
            n == extent_length(*self),
    {
        self.flags_and_length % EXTENT_LENGTH_LIMIT
    }

    pub fn from_length_and_flags(length: u64, flags: u8, phys_block_num: u64, crypto_id: u64) -> (e:
        Self)
        requires
            length < EXTENT_LENGTH_LIMIT,
        ensures
            e == extent_with(length, flags, phys_block_num, crypto_id),
            extent_length(e) == length,
    {
        FileExtentVal {
            flags_and_length: length + flags as u64 * EXTENT_LENGTH_LIMIT,
            phys_block_num,
            crypto_id,
        }
    }

    pub fn write(&self, out: &mut [u8]) -> (r: Result<(), ApfsError>)
        ensures
            old(out)@.len() < 24 ==> final(out)@ == old(out)@ && plain(r) == Err::<(), Fault>(
                Fault::BadCatalog(
                    msg2("extent buffer too short: "@, old(out)@.len(), " < "@, 24, ""@),
                ),
            ),
            old(out)@.len() >= 24 ==> r is Ok && final(out)@ == splice(
                old(out)@,
                0,
                extent_bytes(*self),
            ),
    {
        broadcast use group_bytes_len;

        if out.len() < 24 {
            return Err(
                ApfsError::BadCatalog(
                    text2("extent buffer too short: ", out.len() as u64, " < ", 24, ""),
                ),
            );
        }
        let v = self.to_bytes();
        put_bytes(out, 0, v.as_slice());
        Ok(())
    }

    pub fn to_bytes(&self) -> (v: Vec<u8>)
        ensures
            v@ == extent_bytes(*self),
    {
        let mut v: Vec<u8> = Vec::new();
        push_u64(&mut v, self.flags_and_length);
        push_u64(&mut v, self.phys_block_num);
        push_u64(&mut v, self.crypto_id);
        assert(v@ =~= extent_bytes(*self));
        v
    }
}

/// The name in the key of a directory record: behind the head stand the name
/// length with the trailing NUL (low 10 bits) and the hash, then the name.
pub open spec fn drec_name_outcome(k: Seq<u8>) -> Result<Seq<char>, Fault> {
    if k.len() < 12 {
        Err(Fault::BadBTree("drec key too short for name"@))
    } else {
        let end = 12 + le_u32(k, 8) % 1024;
        if end > k.len() {
            Err(
                Fault::BadBTree(
                    msg2(
                        "drec name extends past key: end="@,
                        end as nat,
                        ", len="@,
                        k.len(),
                        ""@,
                    ),
                ),
            )
        } else {
            Ok(cstring_text(k.subrange(12, end)))
        }
    }
}

/// Extract the file name from a `j_drec_hashed_key_t`.
pub fn decode_drec_name(key: &[u8]) -> (r: Result<String, ApfsError>)
    ensures
        outcome(r) == drec_name_outcome(key@),
{
    if key.len() < 12 {
        return Err(bad_btree("drec key too short for name"));
    }
    let end: usize = 12 + (rd_u32(key, 8) % 1024) as usize;
    if end > key.len() {
        return Err(
            ApfsError::BadBTree(
                text2(
                    "drec name extends past key: end=",
                    end as u64,
                    ", len=",
                    key.len() as u64,
                    "",
                ),
            ),
        );
    }
    Ok(decode_cstring(slice_subrange(key, 12, end)))
}

/// Length and hash of a name in one word.
pub open spec fn name_len_and_hash(len_with_nul: nat, hash22: u32) -> u32 {
    (len_with_nul % 1024 + (hash22 % 0x40_0000) * 1024) as u32
}

/// The key of a directory record.
pub open spec fn drec_key(parent_oid: u64, name: Seq<char>, hash22: u32) -> Seq<u8> {
    key_head(parent_oid, J_TYPE_DIR_REC) + bytes_u32(
        name_len_and_hash(encode_utf8(name).len() + 1, hash22),
    ) + encode_utf8(name) + seq![0u8]
}

/// The key of a directory record, or the refusal of a name that is too long.
pub open spec fn drec_key_outcome(parent_oid: u64, name: Seq<char>, hash22: u32) -> Result<
    Seq<u8>,
    Fault,
> {
    let n = encode_utf8(name).len() + 1;
    if n > 1023 {
        Err(Fault::BadCatalog(msg1("drec name length "@, n, " exceeds 1023"@)))
    } else {
        Ok(drec_key(parent_oid, name, hash22))
    }
}

/// Build a hashed drec key: 8-byte obj_id_and_type, 4-byte name_len_and_hash,
/// UTF-8 name, trailing NUL byte. Length and NUL must fit in 10 bits.
pub fn encode_drec_hashed_key(parent_oid: u64, name: &str, hash22: u32) -> (r: Result<
    Vec<u8>,
    ApfsError,
>)
    ensures
        outcome(r) == drec_key_outcome(parent_oid, name@, hash22),
{
    let bytes = name.as_bytes();
    if bytes.len() > 1022 {
        return Err(drec_name_too_long(bytes.len()));
    }
    let mut out: Vec<u8> = Vec::new();
    push_key_head(&mut out, parent_oid, J_TYPE_DIR_REC);
    let len_with_nul: u32 = bytes.len() as u32 + 1;
    push_u32(&mut out, len_with_nul + (hash22 % 0x40_0000) * 1024);
    push_bytes(&mut out, bytes);
    out.push(0);
    assert(out@ =~= drec_key(parent_oid, name@, hash22));
    Ok(out)
}

fn drec_name_too_long(len: usize) -> (e: ApfsError)
    ensures
        e@ == Fault::BadCatalog(msg1("drec name length "@, (len + 1) as nat, " exceeds 1023"@)),
{
    let n = decimal_string_wide(len as u128 + 1);
    ApfsError::BadCatalog(text_str("drec name length ", n.as_str(), " exceeds 1023"))
}

/// Parsing a directory record gives back what was written.
pub proof fn law_drec_roundtrip(d: DrecVal)
    ensures
        drec_outcome(drec_bytes(d)) == Ok::<DrecVal, Fault>(d),
{
    broadcast use group_bytes_len;

    let b = drec_bytes(d);
    assert(b.subrange(0, 8) =~= bytes_u64(d.file_id));
    assert(b.subrange(8, 16) =~= bytes_i64(d.date_added));
    assert(b.subrange(16, 18) =~= bytes_u16(d.flags));
    lemma_read_u64(b, 0, d.file_id);
    lemma_read_i64(b, 8, d.date_added);
    lemma_read_u16(b, 16, d.flags);
}

/// Parsing an extent gives back what was written.
pub proof fn law_extent_roundtrip(e: FileExtentVal)
    ensures
        extent_outcome(extent_bytes(e)) == Ok::<FileExtentVal, Fault>(e),
{
    broadcast use group_bytes_len;

    let b = extent_bytes(e);
    assert(b.subrange(0, 8) =~= bytes_u64(e.flags_and_length));
    assert(b.subrange(8, 16) =~= bytes_u64(e.phys_block_num));
    assert(b.subrange(16, 24) =~= bytes_u64(e.crypto_id));
    lemma_read_u64(b, 0, e.flags_and_length);
    lemma_read_u64(b, 8, e.phys_block_num);
    lemma_read_u64(b, 16, e.crypto_id);
}

/// An extent has the length that it was made with.
pub proof fn law_extent_keeps_length(length: u64, flags: u8, phys_block_num: u64, crypto_id: u64)
    requires
        length < EXTENT_LENGTH_LIMIT,
    ensures
        extent_length(extent_with(length, flags, phys_block_num, crypto_id)) == length,
        extent_with(length, flags, phys_block_num, crypto_id).flags_and_length
            / EXTENT_LENGTH_LIMIT == flags,
{
}

/// The fields of an inode that its fixed part holds.
proof fn lemma_inode_fields(b: Seq<u8>, i: InodeVal)
    requires
        b.len() >= 92,
        b.subrange(0, 92) == inode_bytes(i),
    ensures
        inode_of(b) == (InodeVal { dstream_size: inode_of(b).dstream_size, ..i }),
{
    broadcast use group_bytes_len;

    let s = b.subrange(0, 92);
    assert(b.subrange(0, 8) =~= s.subrange(0, 8));
    assert(b.subrange(8, 16) =~= s.subrange(8, 16));
    assert(b.subrange(16, 24) =~= s.subrange(16, 24));
    assert(b.subrange(24, 32) =~= s.subrange(24, 32));
    assert(b.subrange(32, 40) =~= s.subrange(32, 40));
    assert(b.subrange(40, 48) =~= s.subrange(40, 48));
    assert(b.subrange(48, 56) =~= s.subrange(48, 56));
    assert(b.subrange(56, 60) =~= s.subrange(56, 60));
    assert(b.subrange(60, 64) =~= s.subrange(60, 64));
    assert(b.subrange(64, 68) =~= s.subrange(64, 68));
    assert(b.subrange(68, 72) =~= s.subrange(68, 72));
    assert(b.subrange(72, 76) =~= s.subrange(72, 76));
    assert(b.subrange(76, 80) =~= s.subrange(76, 80));
    assert(b.subrange(80, 82) =~= s.subrange(80, 82));
    assert(b.subrange(82, 84) =~= s.subrange(82, 84));
    assert(b.subrange(84, 92) =~= s.subrange(84, 92));
    lemma_inode_parts(i);
    lemma_read_u64(b, 0, i.parent_id);
    lemma_read_u64(b, 8, i.private_id);
    lemma_read_i64(b, 16, i.create_time);
    lemma_read_i64(b, 24, i.modify_time);
    lemma_read_i64(b, 32, i.change_time);
    lemma_read_i64(b, 40, i.access_time);
    lemma_read_u64(b, 48, i.internal_flags);
    lemma_read_i32(b, 56, i.nchildren_or_nlink);
    lemma_read_u32(b, 60, i.default_protection_class);
    lemma_read_u32(b, 64, i.write_generation_counter);
    lemma_read_u32(b, 68, i.bsd_flags);
    lemma_read_u32(b, 72, i.uid);
    lemma_read_u32(b, 76, i.gid);
    lemma_read_u16(b, 80, i.mode);
    lemma_read_u16(b, 82, i.pad1);
    lemma_read_u64(b, 84, i.uncompressed_size);
}

proof fn lemma_inode_parts(i: InodeVal)
    ensures
        inode_bytes(i).len() == 92,
        inode_bytes(i).subrange(0, 8) == bytes_u64(i.parent_id),
        inode_bytes(i).subrange(8, 16) == bytes_u64(i.private_id),
        inode_bytes(i).subrange(16, 24) == bytes_i64(i.create_time),
        inode_bytes(i).subrange(24, 32) == bytes_i64(i.modify_time),
        inode_bytes(i).subrange(32, 40) == bytes_i64(i.change_time),
        inode_bytes(i).subrange(40, 48) == bytes_i64(i.access_time),
        inode_bytes(i).subrange(48, 56) == bytes_u64(i.internal_flags),
        inode_bytes(i).subrange(56, 60) == bytes_i32(i.nchildren_or_nlink),
        inode_bytes(i).subrange(60, 64) == bytes_u32(i.default_protection_class),
        inode_bytes(i).subrange(64, 68) == bytes_u32(i.write_generation_counter),
        inode_bytes(i).subrange(68, 72) == bytes_u32(i.bsd_flags),
        inode_bytes(i).subrange(72, 76) == bytes_u32(i.uid),
        inode_bytes(i).subrange(76, 80) == bytes_u32(i.gid),
        inode_bytes(i).subrange(80, 82) == bytes_u16(i.mode),
        inode_bytes(i).subrange(82, 84) == bytes_u16(i.pad1),
        inode_bytes(i).subrange(84, 92) == bytes_u64(i.uncompressed_size),
{
    broadcast use group_bytes_len;

    let b = inode_bytes(i);
    assert(b.subrange(0, 8) =~= bytes_u64(i.parent_id));
    assert(b.subrange(8, 16) =~= bytes_u64(i.private_id));
    assert(b.subrange(16, 24) =~= bytes_i64(i.create_time));
    assert(b.subrange(24, 32) =~= bytes_i64(i.modify_time));
    assert(b.subrange(32, 40) =~= bytes_i64(i.change_time));
    assert(b.subrange(40, 48) =~= bytes_i64(i.access_time));
    assert(b.subrange(48, 56) =~= bytes_u64(i.internal_flags));
    assert(b.subrange(56, 60) =~= bytes_i32(i.nchildren_or_nlink));
    assert(b.subrange(60, 64) =~= bytes_u32(i.default_protection_class));
    assert(b.subrange(64, 68) =~= bytes_u32(i.write_generation_counter));
    assert(b.subrange(68, 72) =~= bytes_u32(i.bsd_flags));
    assert(b.subrange(72, 76) =~= bytes_u32(i.uid));
    assert(b.subrange(76, 80) =~= bytes_u32(i.gid));
    assert(b.subrange(80, 82) =~= bytes_u16(i.mode));
    assert(b.subrange(82, 84) =~= bytes_u16(i.pad1));
    assert(b.subrange(84, 92) =~= bytes_u64(i.uncompressed_size));
}

/// Parsing an inode gives back what was written; the size comes from the
/// extended fields.
pub proof fn law_inode_roundtrip(i: InodeVal, xfields: Seq<u8>)
    ensures
        inode_outcome(inode_bytes(i) + xfields) == Ok::<InodeVal, Fault>(
            InodeVal { dstream_size: dstream_size_of(xfields), ..i },
        ),
{
    lemma_inode_parts(i);
    let b = inode_bytes(i) + xfields;
    assert(b.subrange(0, 92) =~= inode_bytes(i));
    assert(b.subrange(92, b.len() as int) =~= xfields);
    lemma_inode_fields(b, i);
}

/// Data stream description that is written for new files (`j_dstream_t`).
#[derive(Debug, Clone, Copy)]
pub struct JDstream {
    pub size: u64,
    pub alloced_size: u64,
    pub default_crypto_id: u64,
    pub total_bytes_written: u64,
    pub total_bytes_read: u64,
}

/// A blob with a dstream field and nothing else: one descriptor of type,
/// flags and size, then 40 bytes of data.
pub open spec fn dstream_xfields(d: JDstream) -> Seq<u8> {
    bytes_u16(1) + bytes_u16(40) + seq![INO_EXT_TYPE_DSTREAM, 0u8] + bytes_u16(40) + bytes_u64(
        d.size,
    ) + bytes_u64(d.alloced_size) + bytes_u64(d.default_crypto_id) + bytes_u64(
        d.total_bytes_written,
    ) + bytes_u64(d.total_bytes_read)
}

fn build_dstream_xfields(ds: &JDstream) -> (v: Vec<u8>)
    ensures
        v@ == dstream_xfields(*ds),
{
    let mut out: Vec<u8> = Vec::new();
    push_u16(&mut out, 1);
    push_u16(&mut out, 40);
    out.push(INO_EXT_TYPE_DSTREAM);
    out.push(0);
    push_u16(&mut out, 40);
    push_u64(&mut out, ds.size);
    push_u64(&mut out, ds.alloced_size);
    push_u64(&mut out, ds.default_crypto_id);
    push_u64(&mut out, ds.total_bytes_written);
    push_u64(&mut out, ds.total_bytes_read);
    assert(out@ =~= dstream_xfields(*ds));
    out
}

/// The value of an inode, with or without a dstream field.
pub open spec fn inode_value(template: InodeVal, dstream: Option<JDstream>) -> Seq<u8> {
    match dstream {
        None => inode_bytes(template) + Seq::<u8>::empty(),
        Some(d) => inode_bytes(template) + dstream_xfields(d),
    }
}

/// Build a serialised inode value with an optional `j_dstream_t` field. Pass
/// `None` to omit the field (used for directories and zero-length files).
pub fn build_inode_value(template: &InodeVal, dstream: Option<JDstream>) -> (r: Result<
    Vec<u8>,
    ApfsError,
>)
    ensures
        outcome(r) == Ok::<Seq<u8>, Fault>(inode_value(*template, dstream)),
{
    let xfields = match dstream {
        None => Vec::new(),
        Some(ds) => build_dstream_xfields(&ds),
    };
    template.serialize_with_xfields(xfields.as_slice())
}

/// An inode that was built with a dstream field has its size.
pub proof fn law_built_inode_has_size(template: InodeVal, d: JDstream)
    ensures
        inode_outcome(inode_value(template, Some(d))) == Ok::<InodeVal, Fault>(
            InodeVal { dstream_size: Some(d.size), ..template },
        ),
        inode_outcome(inode_value(template, None)) == Ok::<InodeVal, Fault>(
            InodeVal { dstream_size: None, ..template },
        ),
{
    broadcast use group_bytes_len;

    let x = dstream_xfields(d);
    law_inode_roundtrip(template, x);
    law_inode_roundtrip(template, Seq::<u8>::empty());
    assert(x.subrange(0, 2) =~= bytes_u16(1));
    assert(x.subrange(6, 8) =~= bytes_u16(40));
    assert(x.subrange(8, 16) =~= bytes_u64(d.size));
    lemma_read_u16(x, 0, 1);
    lemma_read_u16(x, 6, 40);
    lemma_read_u64(x, 8, d.size);
    assert(x[4] == INO_EXT_TYPE_DSTREAM);
    assert(dstream_among(x, 1, 0, 8) == Some(8int));
}

proof fn lemma_nul_at_end(b: Seq<u8>, i: int)
    requires
        0 <= i < b.len(),
        b.last() == 0,
        forall|k: int| 0 <= k < b.len() - 1 ==> b[k] != 0,
    ensures
        nul_at(b, i) == b.len() - 1,
    decreases b.len() - i,
{
    if i < b.len() - 1 {
        lemma_nul_at_end(b, i + 1);
    }
}

proof fn lemma_scalar_bytes(x: char)
    requires
        x != '\0',
    ensures
        forall|i: int|
            0 <= i < encode_scalar(x as u32).len() ==> (#[trigger] encode_scalar(x as u32)[i]) != 0,
{
    let c = x as u32;
    assert(c != 0);
    assert(has_width_1_encoding(c) && c != 0 ==> leading_byte_width_1(c) != 0) by (bit_vector);
    assert(leading_byte_width_2(c) != 0) by (bit_vector);
    assert(leading_byte_width_3(c) != 0) by (bit_vector);
    assert(leading_byte_width_4(c) != 0) by (bit_vector);
    assert(last_continuation_byte(c) != 0) by (bit_vector);
    assert(second_last_continuation_byte(c) != 0) by (bit_vector);
    assert(third_last_continuation_byte(c) != 0) by (bit_vector);
}

/// UTF-8 has zero bytes for the character NUL only.
proof fn lemma_no_zero_bytes(name: Seq<char>)
    requires
        forall|i: int| 0 <= i < name.len() ==> (#[trigger] name[i]) != '\0',
    ensures
        forall|i: int| 0 <= i < encode_utf8(name).len() ==> (#[trigger] encode_utf8(name)[i]) != 0,
    decreases name.len(),
{
    if name.len() > 0 {
        let rest = name.drop_first();
        assert forall|i: int| 0 <= i < rest.len() implies (#[trigger] rest[i]) != '\0' by {
            assert(rest[i] == name[i + 1]);
        }
        lemma_no_zero_bytes(rest);
        assert(name[0] != '\0');
        lemma_scalar_bytes(name[0]);
        let a = encode_scalar(name[0] as u32);
        let e = encode_utf8(name);
        assert forall|i: int| 0 <= i < e.len() implies (#[trigger] e[i]) != 0 by {
            if i < a.len() {
                assert(e[i] == a[i]);
            } else {
                assert(e[i] == encode_utf8(rest)[i - a.len()]);
            }
        }
    }
}

/// Decoding the key of a directory record gives back the name, for names
/// without NUL.
pub proof fn law_drec_key_keeps_name(parent_oid: u64, name: Seq<char>, hash22: u32)
    requires
        forall|i: int| 0 <= i < name.len() ==> (#[trigger] name[i]) != '\0',
        drec_key_outcome(parent_oid, name, hash22) is Ok,
    ensures
        drec_name_outcome(drec_key(parent_oid, name, hash22)) == Ok::<Seq<char>, Fault>(name),
{
    broadcast use group_bytes_len;

    let e = encode_utf8(name);
    lemma_no_zero_bytes(name);
    let k = drec_key(parent_oid, name, hash22);
    let w = name_len_and_hash(e.len() + 1, hash22);
    assert(k.subrange(8, 12) =~= bytes_u32(w));
    lemma_read_u32(k, 8, w);
    assert(w % 1024 == e.len() + 1);
    let b = k.subrange(12, (13 + e.len()) as int);
    assert(b =~= e + seq![0u8]);
    lemma_nul_at_end(b, 0);
    assert(b.subrange(0, e.len() as int) =~= e);
    encode_utf8_valid_utf8(name);
    encode_utf8_decode_utf8(name);
}

} // verus!
