//! One B-tree node: parsing, reading entries, changing a leaf in place, and
//! writing the node back.
//!
//! After the 32-byte object header and a 24-byte `btree_node_phys_t` prefix
//! the block holds a table of contents, key bytes packed forward, and value
//! bytes packed backward. Root nodes have a 40-byte `btree_info_t` footer at
//! the very end of the block.
//!
//! A table entry is `(key_off, val_off)` in nodes with fixed sizes (4 bytes)
//! and `(key_off, key_len, val_off, val_len)` in the others (8 bytes). In an
//! internal node the value is always an 8-byte child OID.

use crate::apfs::btree::flags;
use crate::apfs::bytes::{
    bytes_u16, bytes_u32, bytes_u64, copy_range, group_bytes_len, le_u16, le_u32, le_u64, push_u16,
    push_u32, push_u64, put_bytes, rd_u16, rd_u32, rd_u64, splice,
};
use crate::apfs::error::{bad_btree, internal, outcome, plain, ApfsError, Fault};
use crate::apfs::fletcher::{bad_size, checkable, refresh_object_checksum, sealed};
use crate::apfs::object::{
    header_of, header_outcome, HeaderView, ObjectHeader, OBJECT_HEADER_SIZE, OBJECT_TYPE_BTREE,
    OBJECT_TYPE_BTREE_NODE,
};
use crate::apfs::text::{msg2, msg3, text2, text3};
use vstd::slice::slice_subrange;
use vstd::prelude::*;

verus! {

/// Object header (32 bytes) and node prefix (24 bytes).
pub const BTNODE_FIXED_PREFIX: usize = 56;

/// Size of the footer that only a root carries (`btree_info_t`).
pub const BTREE_INFO_SIZE: usize = 40;

/// `(off, len)` pair as stored in `btn_table_space` and `btn_free_space`.
#[derive(Debug, Clone, Copy, PartialEq, Eq, Structural)]
pub struct Nloc {
    pub off: u16,
    pub len: u16,
}

/// Entry of the table of contents. Key offsets count from the start of the
/// key area, value offsets count back from the end of the value area.
#[derive(Debug, Clone, Copy, PartialEq, Eq, Structural)]
pub struct TocEntry {
    pub key_off: u16,
    pub key_len: u16,
    pub val_off: u16,
    pub val_len: u16,
}

/// The footer of a root node.
#[derive(Debug, Clone, Copy, PartialEq, Eq, Structural)]
pub struct BTreeInfo {
    pub flags: u32,
    pub node_size: u32,
    pub key_size: u32,
    pub val_size: u32,
    pub longest_key: u32,
    pub longest_val: u32,
    pub key_count: u64,
    pub node_count: u64,
}

/// The pair stored at offset `o`.
pub open spec fn nloc_of(b: Seq<u8>, o: int) -> Nloc {
    Nloc { off: le_u16(b, o), len: le_u16(b, o + 2) }
}

/// The 4 bytes of a pair.
pub open spec fn nloc_bytes(n: Nloc) -> Seq<u8> {
    bytes_u16(n.off) + bytes_u16(n.len)
}

impl Nloc {
    pub fn parse(b: &[u8]) -> (n: Self)
        requires
            b.len() >= 4,
        ensures
            n == nloc_of(b@, 0),
    {
        Nloc { off: rd_u16(b, 0), len: rd_u16(b, 2) }
    }

    pub fn write_into(self, out: &mut [u8])
        requires
            old(out).len() >= 4,
        ensures
            final(out)@ == splice(old(out)@, 0, nloc_bytes(self)),
    {
        broadcast use group_bytes_len;

        let mut v: Vec<u8> = Vec::new();
        self.push(&mut v);
        assert(v@ =~= nloc_bytes(self));
        put_bytes(out, 0, v.as_slice());
    }

    /// Append the 4 bytes of the pair.
    pub fn push(&self, out: &mut Vec<u8>)
        ensures
            final(out)@ == old(out)@ + nloc_bytes(*self),
    {
        push_u16(out, self.off);
        push_u16(out, self.len);
        assert(out@ =~= old(out)@ + nloc_bytes(*self));
    }
}

/// The footer stored at offset `o`.
pub open spec fn info_of(b: Seq<u8>, o: int) -> BTreeInfo {
    BTreeInfo {
        flags: le_u32(b, o),
        node_size: le_u32(b, o + 4),
        key_size: le_u32(b, o + 8),
        val_size: le_u32(b, o + 12),
        longest_key: le_u32(b, o + 16),
        longest_val: le_u32(b, o + 20),
        key_count: le_u64(b, o + 24),
        node_count: le_u64(b, o + 32),
    }
}

/// The 40 bytes of a footer.
pub open spec fn info_bytes(i: BTreeInfo) -> Seq<u8> {
    bytes_u32(i.flags) + bytes_u32(i.node_size) + bytes_u32(i.key_size) + bytes_u32(i.val_size)
        + bytes_u32(i.longest_key) + bytes_u32(i.longest_val) + bytes_u64(i.key_count) + bytes_u64(
        i.node_count,
    )
}

fn read_info(b: &[u8], o: usize) -> (i: BTreeInfo)
    requires
        o + BTREE_INFO_SIZE <= b.len(),
    ensures
        i == info_of(b@, o as int),
{
    BTreeInfo {
        flags: rd_u32(b, o),
        node_size: rd_u32(b, o + 4),
        key_size: rd_u32(b, o + 8),
        val_size: rd_u32(b, o + 12),
        longest_key: rd_u32(b, o + 16),
        longest_val: rd_u32(b, o + 20),
        key_count: rd_u64(b, o + 24),
        node_count: rd_u64(b, o + 32),
    }
}

impl BTreeInfo {
    pub const SIZE: usize = 40;

    pub fn parse(b: &[u8]) -> (r: Result<Self, ApfsError>)
        ensures
            b.len() < BTREE_INFO_SIZE ==> plain(r) == Err::<Self, Fault>(
                Fault::Truncated { need: BTREE_INFO_SIZE as int, have: b.len() as int },
            ),
            b.len() >= BTREE_INFO_SIZE ==> plain(r) == Ok::<Self, Fault>(info_of(b@, 0)),
    {
        if b.len() < BTREE_INFO_SIZE {
            return Err(ApfsError::Truncated { need: BTREE_INFO_SIZE, have: b.len() });
        }
        Ok(read_info(b, 0))
    }

    /// The 40 bytes of the footer.
    pub fn to_bytes(&self) -> (v: Vec<u8>)
        ensures
            v@ == info_bytes(*self),
            v@.len() == BTREE_INFO_SIZE,
    {
        broadcast use group_bytes_len;

        let mut v: Vec<u8> = Vec::new();
        push_u32(&mut v, self.flags);
        push_u32(&mut v, self.node_size);
        push_u32(&mut v, self.key_size);
        push_u32(&mut v, self.val_size);
        push_u32(&mut v, self.longest_key);
        push_u32(&mut v, self.longest_val);
        push_u64(&mut v, self.key_count);
        push_u64(&mut v, self.node_count);
        assert(v@ =~= info_bytes(*self));
        v
    }

    pub fn write_into(&self, out: &mut [u8])
        requires
            old(out).len() >= BTREE_INFO_SIZE,
        ensures
            final(out)@ == splice(old(out)@, 0, info_bytes(*self)),
    {
        let v = self.to_bytes();
        put_bytes(out, 0, v.as_slice());
    }
}

/// Parsed B-tree node. Owns the block bytes so that changes can be written
/// back without reading the block again.
pub struct BTreeNode {
    pub header: ObjectHeader,
    pub flags: u16,
    pub level: u16,
    pub table_space: Nloc,
    pub free_space: Nloc,
    pub key_free_list: Nloc,
    pub val_free_list: Nloc,
    pub toc: Vec<TocEntry>,
    pub info: Option<BTreeInfo>,
    /// Full block bytes including the header. [`Self::serialize`] brings the
    /// header, the table and the checksum up to date.
    pub block: Vec<u8>,
}

/// The contents of a [`BTreeNode`].
#[verifier::ext_equal]
pub struct NodeView {
    pub header: HeaderView,
    pub flags: u16,
    pub level: u16,
    pub table_space: Nloc,
    pub free_space: Nloc,
    pub key_free_list: Nloc,
    pub val_free_list: Nloc,
    pub toc: Seq<TocEntry>,
    pub info: Option<BTreeInfo>,
    pub block: Seq<u8>,
}

impl View for BTreeNode {
    type V = NodeView;

    open spec fn view(&self) -> NodeView {
        NodeView {
            header: self.header@,
            flags: self.flags,
            level: self.level,
            table_space: self.table_space,
            free_space: self.free_space,
            key_free_list: self.key_free_list,
            val_free_list: self.val_free_list,
            toc: self.toc@,
            info: self.info,
            block: self.block@,
        }
    }
}

/// Whether the flags ask for the root footer.
pub open spec fn has_root_flag(f: u16) -> bool {
    f & flags::ROOT != 0
}

/// Whether the flags mark a leaf.
pub open spec fn has_leaf_flag(f: u16) -> bool {
    f & flags::LEAF != 0
}

/// Whether the flags mark a node with fixed key and value sizes.
pub open spec fn has_fixed_flag(f: u16) -> bool {
    f & flags::FIXED_KV_SIZE != 0
}

/// Size of one table entry.
pub open spec fn entry_size(fixed: bool) -> int {
    if fixed { 4 } else { 8 }
}

/// The table entry stored at offset `o`.
pub open spec fn entry_of(b: Seq<u8>, o: int, fixed: bool) -> TocEntry {
    if fixed {
        TocEntry { key_off: le_u16(b, o), key_len: 0, val_off: le_u16(b, o + 2), val_len: 0 }
    } else {
        TocEntry {
            key_off: le_u16(b, o),
            key_len: le_u16(b, o + 2),
            val_off: le_u16(b, o + 4),
            val_len: le_u16(b, o + 6),
        }
    }
}

/// The table of `n` entries stored at offset `o`.
pub open spec fn toc_of(b: Seq<u8>, o: int, n: nat, fixed: bool) -> Seq<TocEntry> {
    Seq::new(n, |i: int| entry_of(b, o + i * entry_size(fixed), fixed))
}

/// The bytes of one table entry.
pub open spec fn entry_bytes(e: TocEntry, fixed: bool) -> Seq<u8> {
    if fixed {
        bytes_u16(e.key_off) + bytes_u16(e.val_off)
    } else {
        bytes_u16(e.key_off) + bytes_u16(e.key_len) + bytes_u16(e.val_off) + bytes_u16(e.val_len)
    }
}

/// The bytes of a table.
pub open spec fn toc_bytes(toc: Seq<TocEntry>, fixed: bool) -> Seq<u8>
    decreases toc.len(),
{
    if toc.len() == 0 {
        Seq::empty()
    } else {
        toc_bytes(toc.drop_last(), fixed) + entry_bytes(toc.last(), fixed)
    }
}

/// The node that a block holds.
pub open spec fn node_of(b: Seq<u8>) -> NodeView {
    let f = le_u16(b, 32);
    let table_space = nloc_of(b, 40);
    NodeView {
        header: header_of(b),
        flags: f,
        level: le_u16(b, 34),
        table_space,
        free_space: nloc_of(b, 44),
        key_free_list: nloc_of(b, 48),
        val_free_list: nloc_of(b, 52),
        toc: toc_of(
            b,
            BTNODE_FIXED_PREFIX + table_space.off,
            le_u32(b, 36) as nat,
            has_fixed_flag(f),
        ),
        info: if has_root_flag(f) { Some(info_of(b, b.len() - BTREE_INFO_SIZE)) } else { None },
        block: b,
    }
}

/// The node that a block holds, or why it holds none: the buffer is too
/// short, the object is no B-tree node, or the table does not fit.
pub open spec fn node_outcome(b: Seq<u8>) -> Result<NodeView, Fault> {
    match header_outcome(b) {
        Err(e) => Err(e),
        Ok(h) => {
            let t = h.object_type();
            let toc_off = BTNODE_FIXED_PREFIX + nloc_of(b, 40).off;
            let need = entry_size(has_fixed_flag(le_u16(b, 32))) * le_u32(b, 36);
            if t != OBJECT_TYPE_BTREE_NODE && t != OBJECT_TYPE_BTREE {
                Err(Fault::BadObjectType { expected: OBJECT_TYPE_BTREE_NODE, actual: t })
            } else if b.len() < BTNODE_FIXED_PREFIX {
                Err(
                    Fault::Truncated {
                        need: BTNODE_FIXED_PREFIX as int,
                        have: b.len() as int,
                    },
                )
            } else if toc_off + need > b.len() {
                Err(
                    Fault::BadBTree(
                        msg3(
                            "toc overflows block (off="@,
                            toc_off as nat,
                            ", need="@,
                            need as nat,
                            ", block_len="@,
                            b.len(),
                            ")"@,
                        ),
                    ),
                )
            } else {
                Ok(node_of(b))
            }
        },
    }
}

/// The largest value offset of a table, 0 for an empty one.
pub open spec fn max_val_off(toc: Seq<TocEntry>) -> u16
    decreases toc.len(),
{
    if toc.len() == 0 {
        0
    } else {
        let m = max_val_off(toc.drop_last());
        if toc.last().val_off > m { toc.last().val_off } else { m }
    }
}

/// The table with its first `n` key offsets moved down by `extra`.
pub open spec fn shift_keys(toc: Seq<TocEntry>, extra: int, n: int) -> Seq<TocEntry> {
    Seq::new(
        toc.len(),
        |i: int|
            if i < n {
                TocEntry { key_off: (toc[i].key_off - extra) as u16, ..toc[i] }
            } else {
                toc[i]
            },
    )
}

/// The first entry from `i` on whose key offset is less than `extra`, or the
/// number of entries.
pub open spec fn first_short(toc: Seq<TocEntry>, extra: int, i: int) -> int
    decreases toc.len() - i,
{
    if i < 0 || i >= toc.len() {
        toc.len() as int
    } else if toc[i].key_off < extra {
        i
    } else {
        first_short(toc, extra, i + 1)
    }
}

impl NodeView {
    pub open spec fn is_leaf(self) -> bool {
        has_leaf_flag(self.flags)
    }

    pub open spec fn is_root(self) -> bool {
        has_root_flag(self.flags)
    }

    pub open spec fn fixed_kv(self) -> bool {
        has_fixed_flag(self.flags)
    }

    /// Where the keys start inside the block: right after the table.
    pub open spec fn keys_start(self) -> int {
        BTNODE_FIXED_PREFIX + self.table_space.off + self.table_space.len
    }

    /// Where the values end inside the block: at the footer of a root, else
    /// at the end of the block.
    pub open spec fn values_end(self) -> int {
        if self.is_root() { self.block.len() - BTREE_INFO_SIZE } else { self.block.len() as int }
    }

    pub open spec fn key_len(self, i: int, fixed_key_size: u32) -> int {
        if self.fixed_kv() { fixed_key_size as int } else { self.toc[i].key_len as int }
    }

    pub open spec fn val_len(self, i: int, fixed_val_size: u32) -> int {
        if !self.is_leaf() {
            8
        } else if self.fixed_kv() {
            fixed_val_size as int
        } else {
            self.toc[i].val_len as int
        }
    }

    pub open spec fn key_pos(self, i: int) -> int {
        self.keys_start() + self.toc[i].key_off
    }

    pub open spec fn val_pos(self, i: int) -> int {
        self.values_end() - self.toc[i].val_off
    }

    /// The `i`-th key.
    pub open spec fn key(self, i: int, fixed_key_size: u32) -> Result<Seq<u8>, Fault> {
        if i >= self.toc.len() {
            Err(
                Fault::BadBTree(
                    msg2("key index "@, i as nat, " out of range ("@, self.toc.len(), " keys)"@),
                ),
            )
        } else {
            let from = self.key_pos(i);
            let to = from + self.key_len(i, fixed_key_size);
            if to > self.block.len() {
                Err(Fault::BadBTree("key slice oob"@))
            } else {
                Ok(self.block.subrange(from, to))
            }
        }
    }

    /// The `i`-th value.
    pub open spec fn value(self, i: int, fixed_val_size: u32) -> Result<Seq<u8>, Fault> {
        if i >= self.toc.len() {
            Err(
                Fault::BadBTree(
                    msg2("value index "@, i as nat, " out of range ("@, self.toc.len(), " keys)"@),
                ),
            )
        } else {
            let from = self.val_pos(i);
            let len = self.val_len(i, fixed_val_size);
            if from < 0 {
                Err(Fault::BadBTree("val_off underflow"@))
            } else if from + len > self.values_end() {
                Err(
                    Fault::BadBTree(
                        msg3(
                            "val slice oob: off="@,
                            from as nat,
                            " len="@,
                            len as nat,
                            " end="@,
                            self.values_end() as nat,
                            ""@,
                        ),
                    ),
                )
            } else {
                Ok(self.block.subrange(from, from + len))
            }
        }
    }

    /// The `i`-th child of an internal node.
    pub open spec fn child_oid(self, i: int) -> Result<u64, Fault> {
        if self.is_leaf() {
            Err(Fault::Internal("child_oid_at called on leaf node"@))
        } else {
            match self.value(i, 0) {
                Err(e) => Err(e),
                Ok(v) => Ok(le_u64(v, 0)),
            }
        }
    }

    /// The outcome of replacing the `i`-th value, and the node afterwards.
    pub open spec fn replace(self, i: int, new_val: Seq<u8>, fixed_val_size: u32) -> (
        Result<(), Fault>,
        NodeView,
    ) {
        match self.value(i, fixed_val_size) {
            Err(e) => (Err(e), self),
            Ok(v) => if new_val.len() != v.len() {
                (
                    Err(
                        Fault::BadBTree(
                            msg2(
                                "replace_value: length mismatch (need "@,
                                v.len(),
                                ", got "@,
                                new_val.len(),
                                ")"@,
                            ),
                        ),
                    ),
                    self,
                )
            } else {
                (Ok(()), NodeView { block: splice(self.block, self.val_pos(i), new_val), ..self })
            },
        }
    }

    /// Why an entry of fixed size is refused before anything is changed.
    pub open spec fn fixed_refusal(
        self,
        idx: int,
        key: Seq<u8>,
        val: Seq<u8>,
        fixed_key_size: u32,
        fixed_val_size: u32,
    ) -> Option<Fault> {
        let key_off = self.table_space.off + self.table_space.len + self.free_space.off;
        let val_off = max_val_off(self.toc) + fixed_val_size;
        if !self.is_leaf() {
            Some(Fault::BadBTree("insert_leaf_fixed on non-leaf"@))
        } else if !self.fixed_kv() {
            Some(Fault::BadBTree("insert_leaf_fixed on variable-KV node"@))
        } else if key.len() != fixed_key_size || val.len() != fixed_val_size {
            Some(Fault::BadBTree("insert_leaf_fixed: size mismatch"@))
        } else if idx > self.toc.len() {
            Some(
                Fault::BadBTree(
                    msg2(
                        "insert_leaf_fixed: idx "@,
                        idx as nat,
                        " > nkeys "@,
                        self.toc.len(),
                        ""@,
                    ),
                ),
            )
        } else if self.free_space.len < 4 + fixed_key_size + fixed_val_size {
            Some(Fault::BadBTree("insert_leaf_fixed: free space exhausted"@))
        } else if key_off > u16::MAX || val_off > u16::MAX || self.free_space.off + fixed_key_size
            > u16::MAX || ((self.toc.len() + 1) as u16) * 4 > u16::MAX {
            Some(Fault::BadBTree("insert_leaf_fixed: offset overflow"@))
        } else if BTNODE_FIXED_PREFIX + key_off + key.len() > self.block.len() {
            Some(Fault::BadBTree("insert_leaf_fixed: key would overflow block"@))
        } else if self.values_end() < val_off {
            Some(Fault::BadBTree("insert_leaf_fixed: val area underflow"@))
        } else {
            None
        }
    }

    /// The node with an entry of fixed size put in, its table not yet grown.
    pub open spec fn fixed_placed(
        self,
        idx: int,
        key: Seq<u8>,
        val: Seq<u8>,
        fixed_key_size: u32,
        fixed_val_size: u32,
    ) -> NodeView {
        let val_off = max_val_off(self.toc) + fixed_val_size;
        NodeView {
            block: splice(
                splice(self.block, self.keys_start() + self.free_space.off, key),
                self.values_end() - val_off,
                val,
            ),
            toc: self.toc.insert(
                idx,
                TocEntry {
                    key_off: self.free_space.off,
                    key_len: fixed_key_size as u16,
                    val_off: val_off as u16,
                    val_len: fixed_val_size as u16,
                },
            ),
            free_space: Nloc {
                off: (self.free_space.off + fixed_key_size) as u16,
                len: (self.free_space.len - fixed_key_size - fixed_val_size) as u16,
            },
            ..self
        }
    }

    /// The node with a table of `used` bytes, taken from the free space. The
    /// keys stay where they are, so that their offsets shrink.
    pub open spec fn fixed_grown(self, used: int) -> (Result<(), Fault>, NodeView) {
        let extra = used - self.table_space.len;
        let table_space = Nloc { len: used as u16, ..self.table_space };
        if extra <= 0 {
            (Ok(()), self)
        } else if self.free_space.len < extra {
            (Err(Fault::BadBTree("insert_leaf_fixed: cannot grow toc"@)), self)
        } else if self.free_space.off < extra {
            (
                Err(Fault::BadBTree("insert_leaf_fixed: free_space.off underflow on grow"@)),
                NodeView { table_space, ..self },
            )
        } else {
            let short = first_short(self.toc, extra, 0);
            (
                if short < self.toc.len() {
                    Err(Fault::BadBTree("insert_leaf_fixed: toc grow overflowed key_off"@))
                } else {
                    Ok(())
                },
                NodeView {
                    table_space,
                    free_space: Nloc {
                        off: (self.free_space.off - extra) as u16,
                        len: (self.free_space.len - extra) as u16,
                    },
                    toc: shift_keys(self.toc, extra, short),
                    ..self
                },
            )
        }
    }

    /// The outcome of putting in an entry of fixed size, and the node
    /// afterwards.
    pub open spec fn insert_fixed(
        self,
        idx: int,
        key: Seq<u8>,
        val: Seq<u8>,
        fixed_key_size: u32,
        fixed_val_size: u32,
    ) -> (Result<(), Fault>, NodeView) {
        match self.fixed_refusal(idx, key, val, fixed_key_size, fixed_val_size) {
            Some(e) => (Err(e), self),
            None => self.fixed_placed(idx, key, val, fixed_key_size, fixed_val_size).fixed_grown(
                ((self.toc.len() + 1) as u16) * 4,
            ),
        }
    }

    /// The outcome of taking the `i`-th entry out of a leaf, and the node
    /// afterwards.
    pub open spec fn delete(self, i: int) -> (Result<(), Fault>, NodeView) {
        if !self.is_leaf() {
            (Err(Fault::BadBTree("delete_leaf on non-leaf"@)), self)
        } else if i >= self.toc.len() {
            (Err(Fault::BadBTree("delete_leaf: idx oob"@)), self)
        } else {
            (Ok(()), NodeView { toc: self.toc.remove(i), ..self })
        }
    }

    /// The outcome of taking the `i`-th entry out of a leaf with entries of
    /// variable size, and the node afterwards.
    pub open spec fn delete_var(self, i: int) -> (Result<(), Fault>, NodeView) {
        if !self.is_leaf() {
            (Err(Fault::BadBTree("delete_leaf_var on non-leaf"@)), self)
        } else if self.fixed_kv() {
            (Err(Fault::BadBTree("delete_leaf_var on fixed-KV node"@)), self)
        } else if i >= self.toc.len() {
            (Err(Fault::BadBTree("delete_leaf_var: idx oob"@)), self)
        } else {
            (Ok(()), NodeView { toc: self.toc.remove(i), ..self })
        }
    }

    /// Where the next key goes.
    pub open spec fn free_pos(self) -> int {
        self.keys_start() + self.free_space.off
    }

    /// Why an entry of variable size is refused before anything is changed.
    pub open spec fn var_refusal(self, idx: int, key: Seq<u8>, val: Seq<u8>) -> Option<Fault> {
        let key_len = key.len() as u16;
        let val_len = val.len() as u16;
        let key_off = self.table_space.off + self.table_space.len + self.free_space.off;
        let val_off = max_val_off(self.toc) + val_len;
        if !self.is_leaf() {
            Some(Fault::BadBTree("insert_leaf_var on non-leaf"@))
        } else if self.fixed_kv() {
            Some(Fault::BadBTree("insert_leaf_var on fixed-KV node"@))
        } else if idx > self.toc.len() {
            Some(
                Fault::BadBTree(
                    msg2("insert_leaf_var: idx "@, idx as nat, " > nkeys "@, self.toc.len(), ""@),
                ),
            )
        } else if key_len == 0 || val_len == 0 {
            Some(Fault::BadBTree("insert_leaf_var: empty key or value"@))
        } else if self.free_space.len < 8 + key_len + val_len {
            Some(Fault::BadBTree("insert_leaf_var: free space exhausted"@))
        } else if key_off > u16::MAX {
            Some(Fault::BadBTree("insert_leaf_var: offset overflow"@))
        } else if self.free_pos() + key.len() > self.block.len() {
            Some(Fault::BadBTree("insert_leaf_var: key would overflow block"@))
        } else if val_off > u16::MAX || self.free_space.off + key_len > u16::MAX || ((
        self.toc.len() + 1) as u16) * 8 > u16::MAX {
            Some(Fault::BadBTree("insert_leaf_var: offset overflow"@))
        } else if self.values_end() >= val_off && self.values_end() - val_off + val.len()
            > self.block.len() {
            Some(Fault::BadBTree("insert_leaf_var: value would overflow block"@))
        } else {
            None
        }
    }

    /// The node with the bytes of the key written.
    pub open spec fn key_written(self, key: Seq<u8>) -> NodeView {
        NodeView { block: splice(self.block, self.free_pos(), key), ..self }
    }

    /// The node with an entry of variable size put in, its table not yet
    /// grown.
    pub open spec fn var_placed(self, idx: int, key: Seq<u8>, val: Seq<u8>) -> NodeView {
        let key_len = key.len() as u16;
        let val_len = val.len() as u16;
        let val_off = max_val_off(self.toc) + val_len;
        NodeView {
            block: splice(self.key_written(key).block, self.values_end() - val_off, val),
            toc: self.toc.insert(
                idx,
                TocEntry {
                    key_off: self.free_space.off,
                    key_len,
                    val_off: val_off as u16,
                    val_len,
                },
            ),
            free_space: Nloc {
                off: (self.free_space.off + key_len) as u16,
                len: (self.free_space.len - key_len - val_len) as u16,
            },
            ..self
        }
    }

    /// The node with a table of `used` bytes, taken from the free space. The
    /// keys stay where they are, so that their offsets shrink.
    pub open spec fn var_grown(self, used: int) -> (Result<(), Fault>, NodeView) {
        let extra = used - self.table_space.len;
        let table_space = Nloc { len: used as u16, ..self.table_space };
        if extra <= 0 {
            (Ok(()), self)
        } else if self.free_space.len < extra {
            (Err(Fault::BadBTree("insert_leaf_var: cannot grow toc"@)), self)
        } else if self.free_space.off < extra {
            (
                Err(Fault::BadBTree("insert_leaf_var: free_space.off underflow on grow"@)),
                NodeView { table_space, ..self },
            )
        } else {
            let short = first_short(self.toc, extra, 0);
            (
                if short < self.toc.len() {
                    Err(Fault::BadBTree("insert_leaf_var: toc grow overflowed key_off"@))
                } else {
                    Ok(())
                },
                NodeView {
                    table_space,
                    free_space: Nloc {
                        off: (self.free_space.off - extra) as u16,
                        len: (self.free_space.len - extra) as u16,
                    },
                    toc: shift_keys(self.toc, extra, short),
                    ..self
                },
            )
        }
    }

    /// The outcome of putting in an entry of variable size, and the node
    /// afterwards.
    pub open spec fn insert_var(self, idx: int, key: Seq<u8>, val: Seq<u8>) -> (
        Result<(), Fault>,
        NodeView,
    ) {
        match self.var_refusal(idx, key, val) {
            Some(e) => (Err(e), self),
            None => if self.values_end() < max_val_off(self.toc) + (val.len() as u16) {
                (
                    Err(Fault::BadBTree("insert_leaf_var: val area underflow"@)),
                    self.key_written(key),
                )
            } else {
                self.var_placed(idx, key, val).var_grown(((self.toc.len() + 1) as u16) * 8)
            },
        }
    }

    /// The 24 bytes between the object header and the table.
    pub open spec fn prefix_bytes(self) -> Seq<u8> {
        bytes_u16(self.flags) + bytes_u16(self.level) + bytes_u32(self.toc.len() as u32)
            + nloc_bytes(self.table_space) + nloc_bytes(self.free_space) + nloc_bytes(
            self.key_free_list,
        ) + nloc_bytes(self.val_free_list)
    }

    /// Where the table starts inside the block.
    pub open spec fn toc_start(self) -> int {
        BTNODE_FIXED_PREFIX + self.table_space.off
    }

    /// Where the table ends inside the block.
    pub open spec fn toc_end(self) -> int {
        self.toc_start() + entry_size(self.fixed_kv()) * self.toc.len()
    }

    /// Whether header, table and footer fit the block.
    pub open spec fn fits(self) -> bool {
        self.block.len() >= BTNODE_FIXED_PREFIX && self.toc_end() <= self.block.len()
    }

    /// The block with header, prefix, table and footer written over it.
    pub open spec fn written(self) -> Seq<u8> {
        let b1 = splice(self.block, 0, self.header.encode());
        let b2 = splice(b1, 32, self.prefix_bytes());
        let b3 = splice(b2, self.toc_start(), toc_bytes(self.toc, self.fixed_kv()));
        match self.info {
            Some(i) => splice(b3, b3.len() - BTREE_INFO_SIZE, info_bytes(i)),
            None => b3,
        }
    }

    /// The outcome of writing the node back, and the block afterwards.
    pub open spec fn serialize(self) -> (Result<Seq<u8>, Fault>, NodeView) {
        if !self.fits() {
            (Err(Fault::BadBTree("serialize: node overflows block"@)), self)
        } else if !checkable(self.block.len()) {
            (Err(bad_size(self.block.len())), NodeView { block: self.written(), ..self })
        } else {
            let b = sealed(self.written());
            (Ok(b), NodeView { block: b, ..self })
        }
    }
}

/// A piece of a node, taken by its bytes.
pub open spec fn slice_outcome(r: Result<&[u8], ApfsError>) -> Result<Seq<u8>, Fault> {
    match r {
        Ok(s) => Ok(s@),
        Err(e) => Err(e@),
    }
}

fn read_entry(b: &[u8], o: usize, fixed: bool) -> (e: TocEntry)
    requires
        o + entry_size(fixed) <= b.len(),
    ensures
        e == entry_of(b@, o as int, fixed),
{
    if fixed {
        TocEntry { key_off: rd_u16(b, o), key_len: 0, val_off: rd_u16(b, o + 2), val_len: 0 }
    } else {
        TocEntry {
            key_off: rd_u16(b, o),
            key_len: rd_u16(b, o + 2),
            val_off: rd_u16(b, o + 4),
            val_len: rd_u16(b, o + 6),
        }
    }
}

fn read_toc(b: &[u8], o: usize, n: u32, fixed: bool) -> (toc: Vec<TocEntry>)
    requires
        o + entry_size(fixed) * n <= b.len(),
    ensures
        toc@ == toc_of(b@, o as int, n as nat, fixed),
{
    let size: usize = if fixed { 4 } else { 8 };
    let mut toc: Vec<TocEntry> = Vec::new();
    let mut i: u32 = 0;
    let mut at: usize = o;
    while i < n
        invariant
            i <= n,
            size == entry_size(fixed),
            o + size * n <= b.len(),
            at == o + size * i,
            toc@ == toc_of(b@, o as int, i as nat, fixed),
        decreases n - i,
    {
        assert(size * i + size <= size * n) by (nonlinear_arith)
            requires
                i < n,
        ;
        assert(size * (i + 1) == size * i + size) by (nonlinear_arith);
        assert(size * i == i * size) by (nonlinear_arith);
        toc.push(read_entry(b, at, fixed));
        assert(toc@ =~= toc_of(b@, o as int, (i + 1) as nat, fixed));
        i += 1;
        at += size;
    }
    toc
}

impl BTreeNode {
    pub fn parse(block: &[u8]) -> (r: Result<Self, ApfsError>)
        ensures
            outcome(r) == node_outcome(block@),
    {
        let header = ObjectHeader::parse(block)?;
        // Root nodes (OBJECT_TYPE_BTREE) and the others
        // (OBJECT_TYPE_BTREE_NODE) share the same layout.
        let ot: u16 = header.object_type();
        if ot != OBJECT_TYPE_BTREE_NODE && ot != OBJECT_TYPE_BTREE {
            return Err(
                ApfsError::BadObjectType { expected: OBJECT_TYPE_BTREE_NODE, actual: ot },
            );
        }
        if block.len() < BTNODE_FIXED_PREFIX {
            return Err(ApfsError::Truncated { need: BTNODE_FIXED_PREFIX, have: block.len() });
        }
        let node_flags: u16 = rd_u16(block, 32);
        let level: u16 = rd_u16(block, 34);
        let nkeys: u32 = rd_u32(block, 36);
        let table_space = Nloc { off: rd_u16(block, 40), len: rd_u16(block, 42) };
        let free_space = Nloc { off: rd_u16(block, 44), len: rd_u16(block, 46) };
        let key_free_list = Nloc { off: rd_u16(block, 48), len: rd_u16(block, 50) };
        let val_free_list = Nloc { off: rd_u16(block, 52), len: rd_u16(block, 54) };
        let info = if (node_flags & flags::ROOT) != 0 {
            Some(read_info(block, block.len() - BTREE_INFO_SIZE))
        } else {
            None
        };

        let toc_off: usize = BTNODE_FIXED_PREFIX + table_space.off as usize;
        let fixed_kv = (node_flags & flags::FIXED_KV_SIZE) != 0;
        let size: u64 = if fixed_kv { 4 } else { 8 };
        assert(size * nkeys <= 8 * 0xFFFF_FFFF) by (nonlinear_arith)
            requires
                size <= 8,
                nkeys <= 0xFFFF_FFFF,
        ;
        let need: u64 = size * (nkeys as u64);
        if toc_off as u64 + need > block.len() as u64 {
            return Err(
                ApfsError::BadBTree(
                    text3(
                        "toc overflows block (off=",
                        toc_off as u64,
                        ", need=",
                        need,
                        ", block_len=",
                        block.len() as u64,
                        ")",
                    ),
                ),
            );
        }
        let toc = read_toc(block, toc_off, nkeys, fixed_kv);
        let node = BTreeNode {
            header,
            flags: node_flags,
            level,
            table_space,
            free_space,
            key_free_list,
            val_free_list,
            toc,
            info,
            block: copy_range(block, 0, block.len()),
        };
        assert(node@ =~= node_of(block@));
        Ok(node)
    }

    pub fn is_leaf(&self) -> (r: bool)
        ensures
            r == self@.is_leaf(),
    {
        (self.flags & flags::LEAF) != 0
    }

    pub fn is_root(&self) -> (r: bool)
        ensures
            r == self@.is_root(),
    {
        (self.flags & flags::ROOT) != 0
    }

    pub fn fixed_kv(&self) -> (r: bool)
        ensures
            r == self@.fixed_kv(),
    {
        (self.flags & flags::FIXED_KV_SIZE) != 0
    }

    pub fn nkeys(&self) -> (n: usize)
        ensures
            n == self@.toc.len(),
    {
        self.toc.len()
    }

    fn keys_area_start(&self) -> (n: usize)
        ensures
            n == self@.keys_start(),
    {
        BTNODE_FIXED_PREFIX + self.table_space.off as usize + self.table_space.len as usize
    }

    /// End of the value area, or `None` when the block has no room for the
    /// footer.
    fn val_area_end(&self) -> (n: Option<usize>)
        ensures
            match n {
                Some(n) => n == self@.values_end(),
                None => self@.values_end() < 0,
            },
    {
        if self.is_root() {
            if self.block.len() < BTREE_INFO_SIZE {
                None
            } else {
                Some(self.block.len() - BTREE_INFO_SIZE)
            }
        } else {
            Some(self.block.len())
        }
    }

    /// Slice the `i`-th key. For nodes of fixed sizes pass the key size of the
    /// tree; for the others it is not looked at.
    pub fn key_at(&self, i: usize, fixed_key_size: u32) -> (r: Result<&[u8], ApfsError>)
        ensures
            slice_outcome(r) == self@.key(i as int, fixed_key_size),
    {
        if i >= self.toc.len() {
            return Err(
                ApfsError::BadBTree(
                    text2(
                        "key index ",
                        i as u64,
                        " out of range (",
                        self.toc.len() as u64,
                        " keys)",
                    ),
                ),
            );
        }
        let entry = self.toc[i];
        let key_off: usize = self.keys_area_start() + entry.key_off as usize;
        let key_len: usize = if self.fixed_kv() {
            fixed_key_size as usize
        } else {
            entry.key_len as usize
        };
        if key_off > self.block.len() || key_len > self.block.len() - key_off {
            return Err(bad_btree("key slice oob"));
        }
        Ok(slice_subrange(self.block.as_slice(), key_off, key_off + key_len))
    }

    /// Slice the `i`-th value. In an internal node the value is always an
    /// 8-byte child OID and the size is not looked at.
    pub fn value_at(&self, i: usize, fixed_val_size: u32) -> (r: Result<&[u8], ApfsError>)
        ensures
            slice_outcome(r) == self@.value(i as int, fixed_val_size),
    {
        if i >= self.toc.len() {
            return Err(
                ApfsError::BadBTree(
                    text2(
                        "value index ",
                        i as u64,
                        " out of range (",
                        self.toc.len() as u64,
                        " keys)",
                    ),
                ),
            );
        }
        let entry = self.toc[i];
        let end: usize = match self.val_area_end() {
            Some(end) => end,
            None => {
                return Err(bad_btree("val_off underflow"));
            },
        };
        if end < entry.val_off as usize {
            return Err(bad_btree("val_off underflow"));
        }
        let val_off: usize = end - entry.val_off as usize;
        let val_len: usize = if !self.is_leaf() {
            8
        } else if self.fixed_kv() {
            fixed_val_size as usize
        } else {
            entry.val_len as usize
        };
        if val_len > entry.val_off as usize {
            return Err(
                ApfsError::BadBTree(
                    text3(
                        "val slice oob: off=",
                        val_off as u64,
                        " len=",
                        val_len as u64,
                        " end=",
                        end as u64,
                        "",
                    ),
                ),
            );
        }
        Ok(slice_subrange(self.block.as_slice(), val_off, val_off + val_len))
    }

    /// Read the `i`-th child OID. Only valid on internal nodes.
    pub fn child_oid_at(&self, i: usize) -> (r: Result<u64, ApfsError>)
        ensures
            plain(r) == self@.child_oid(i as int),
    {
        if self.is_leaf() {
            return Err(internal("child_oid_at called on leaf node"));
        }
        let v = self.value_at(i, 0)?;
        Ok(rd_u64(v, 0))
    }

    /// Replace the `i`-th value with bytes of identical length.
    pub fn replace_value(&mut self, i: usize, new_val: &[u8], fixed_val_size: u32) -> (r: Result<
        (),
        ApfsError,
    >)
        ensures
            (plain(r), final(self)@) == old(self)@.replace(i as int, new_val@, fixed_val_size),
    {
        let len_required: usize = match self.value_at(i, fixed_val_size) {
            Ok(v) => v.len(),
            Err(e) => {
                return Err(e);
            },
        };
        if new_val.len() != len_required {
            return Err(
                ApfsError::BadBTree(
                    text2(
                        "replace_value: length mismatch (need ",
                        len_required as u64,
                        ", got ",
                        new_val.len() as u64,
                        ")",
                    ),
                ),
            );
        }
        let end: usize = self.val_area_end().unwrap();
        let off: usize = end - self.toc[i].val_off as usize;
        put_bytes(self.block.as_mut_slice(), off, new_val);
        Ok(())
    }

    fn max_val_off(&self) -> (m: u16)
        ensures
            m == max_val_off(self@.toc),
    {
        let mut m: u16 = 0;
        let mut i: usize = 0;
        while i < self.toc.len()
            invariant
                i <= self.toc.len(),
                m == max_val_off(self.toc@.subrange(0, i as int)),
            decreases self.toc.len() - i,
        {
            proof {
                let next = self.toc@.subrange(0, i + 1);
                assert(next.drop_last() =~= self.toc@.subrange(0, i as int));
            }
            if self.toc[i].val_off > m {
                m = self.toc[i].val_off;
            }
            i += 1;
        }
        assert(self.toc@.subrange(0, self.toc@.len() as int) =~= self.toc@);
        m
    }

    /// Insert a `(key, val)` pair into a leaf of fixed sizes at position
    /// `idx`. Bumps the number of keys, allocates from the free space, and
    /// enlarges the table when it has outgrown its room.
    pub fn insert_leaf_fixed(
        &mut self,
        idx: usize,
        key: &[u8],
        val: &[u8],
        fixed_key_size: u32,
        fixed_val_size: u32,
    ) -> (r: Result<(), ApfsError>)
        ensures
            (plain(r), final(self)@) == old(self)@.insert_fixed(
                idx as int,
                key@,
                val@,
                fixed_key_size,
                fixed_val_size,
            ),
    {
        if !self.is_leaf() {
            return Err(bad_btree("insert_leaf_fixed on non-leaf"));
        }
        if !self.fixed_kv() {
            return Err(bad_btree("insert_leaf_fixed on variable-KV node"));
        }
        if key.len() != fixed_key_size as usize || val.len() != fixed_val_size as usize {
            return Err(bad_btree("insert_leaf_fixed: size mismatch"));
        }
        if idx > self.toc.len() {
            return Err(
                ApfsError::BadBTree(
                    text2(
                        "insert_leaf_fixed: idx ",
                        idx as u64,
                        " > nkeys ",
                        self.toc.len() as u64,
                        "",
                    ),
                ),
            );
        }
        // The table slot, the key and the value all come out of the free
        // space.
        let total_needed: u64 = 4 + fixed_key_size as u64 + fixed_val_size as u64;
        if (self.free_space.len as u64) < total_needed {
            return Err(bad_btree("insert_leaf_fixed: free space exhausted"));
        }
        // Keys go to the low end of the free space, values below the one with
        // the largest offset from the end.
        let key_off: u64 = self.table_space.off as u64 + self.table_space.len as u64
            + self.free_space.off as u64;
        let val_off: u64 = self.max_val_off() as u64 + fixed_val_size as u64;
        let used: u64 = ((self.toc.len() as u128 + 1) as u16) as u64 * 4;
        if key_off > 0xFFFF || val_off > 0xFFFF || self.free_space.off as u64
            + fixed_key_size as u64 > 0xFFFF || used > 0xFFFF {
            return Err(bad_btree("insert_leaf_fixed: offset overflow"));
        }
        let abs_key_off: usize = BTNODE_FIXED_PREFIX + key_off as usize;
        if abs_key_off > self.block.len() || key.len() > self.block.len() - abs_key_off {
            return Err(bad_btree("insert_leaf_fixed: key would overflow block"));
        }
        let val_area_end: usize = match self.val_area_end() {
            Some(end) => end,
            None => {
                return Err(bad_btree("insert_leaf_fixed: val area underflow"));
            },
        };
        if val_area_end < val_off as usize {
            return Err(bad_btree("insert_leaf_fixed: val area underflow"));
        }
        put_bytes(self.block.as_mut_slice(), abs_key_off, key);
        put_bytes(self.block.as_mut_slice(), val_area_end - val_off as usize, val);
        let entry = TocEntry {
            key_off: self.free_space.off,
            key_len: fixed_key_size as u16,
            val_off: val_off as u16,
            val_len: fixed_val_size as u16,
        };
        self.toc.insert(idx, entry);
        self.free_space = Nloc {
            off: self.free_space.off + fixed_key_size as u16,
            len: self.free_space.len - fixed_key_size as u16 - fixed_val_size as u16,
        };
        let ghost placed = self@;
        assert(placed =~= old(self)@.fixed_placed(
            idx as int,
            key@,
            val@,
            fixed_key_size,
            fixed_val_size,
        ));

        // Grow the table if it has outgrown its room.
        let used: u16 = used as u16;
        if used > self.table_space.len {
            let extra: u16 = used - self.table_space.len;
            if self.free_space.len < extra {
                return Err(bad_btree("insert_leaf_fixed: cannot grow toc"));
            }
            self.table_space = Nloc { off: self.table_space.off, len: used };
            if self.free_space.off < extra {
                return Err(bad_btree("insert_leaf_fixed: free_space.off underflow on grow"));
            }
            // The keys now start `extra` bytes later, while the bytes
            // themselves stay where they are.
            self.free_space = Nloc {
                off: self.free_space.off - extra,
                len: self.free_space.len - extra,
            };
            let moved = self.shift_key_offsets(extra);
            assert(self@ =~= placed.fixed_grown(used as int).1);
            if !moved {
                return Err(bad_btree("insert_leaf_fixed: toc grow overflowed key_off"));
            }
        }
        Ok(())
    }

    /// Remove the `i`-th entry of a leaf. The table slot is freed; the bytes
    /// of key and value stay in place until those offsets are reused.
    pub fn delete_leaf(&mut self, i: usize) -> (r: Result<(), ApfsError>)
        ensures
            (plain(r), final(self)@) == old(self)@.delete(i as int),
    {
        if !self.is_leaf() {
            return Err(bad_btree("delete_leaf on non-leaf"));
        }
        if i >= self.toc.len() {
            return Err(bad_btree("delete_leaf: idx oob"));
        }
        self.toc.remove(i);
        Ok(())
    }

    /// Insert a `(key, val)` pair into a leaf of variable sizes at position
    /// `idx`. Bumps the number of keys, allocates from the free space, and
    /// enlarges the table when it has outgrown its room.
    pub fn insert_leaf_var(&mut self, idx: usize, key: &[u8], val: &[u8]) -> (r: Result<
        (),
        ApfsError,
    >)
        ensures
            (plain(r), final(self)@) == old(self)@.insert_var(idx as int, key@, val@),
    {
        if !self.is_leaf() {
            return Err(bad_btree("insert_leaf_var on non-leaf"));
        }
        if self.fixed_kv() {
            return Err(bad_btree("insert_leaf_var on fixed-KV node"));
        }
        if idx > self.toc.len() {
            return Err(
                ApfsError::BadBTree(
                    text2(
                        "insert_leaf_var: idx ",
                        idx as u64,
                        " > nkeys ",
                        self.toc.len() as u64,
                        "",
                    ),
                ),
            );
        }
        let key_len: u16 = key.len() as u16;
        let val_len: u16 = val.len() as u16;
        if key_len == 0 || val_len == 0 {
            return Err(bad_btree("insert_leaf_var: empty key or value"));
        }
        let total_needed: u32 = 8 + key_len as u32 + val_len as u32;
        if (self.free_space.len as u32) < total_needed {
            return Err(bad_btree("insert_leaf_var: free space exhausted"));
        }
        // The key goes to the low end of the free space.
        let key_off: u64 = self.table_space.off as u64 + self.table_space.len as u64
            + self.free_space.off as u64;
        if key_off > 0xFFFF {
            return Err(bad_btree("insert_leaf_var: offset overflow"));
        }
        let abs_key_off: usize = BTNODE_FIXED_PREFIX + key_off as usize;
        if abs_key_off > self.block.len() || key.len() > self.block.len() - abs_key_off {
            return Err(bad_btree("insert_leaf_var: key would overflow block"));
        }
        // The value goes right below the deepest value: the one with the
        // largest offset from the end.
        let val_off: u64 = self.max_val_off() as u64 + val_len as u64;
        let used: u64 = ((self.toc.len() as u128 + 1) as u16) as u64 * 8;
        if val_off > 0xFFFF || self.free_space.off as u64 + key_len as u64 > 0xFFFF || used
            > 0xFFFF {
            return Err(bad_btree("insert_leaf_var: offset overflow"));
        }
        let val_pos: Option<usize> = match self.val_area_end() {
            Some(end) => if end < val_off as usize {
                None
            } else {
                Some(end - val_off as usize)
            },
            None => None,
        };
        let val_pos: usize = match val_pos {
            Some(at) => at,
            None => {
                put_bytes(self.block.as_mut_slice(), abs_key_off, key);
                return Err(bad_btree("insert_leaf_var: val area underflow"));
            },
        };
        if val.len() > self.block.len() - val_pos {
            return Err(bad_btree("insert_leaf_var: value would overflow block"));
        }
        put_bytes(self.block.as_mut_slice(), abs_key_off, key);
        put_bytes(self.block.as_mut_slice(), val_pos, val);
        let entry = TocEntry {
            key_off: self.free_space.off,
            key_len,
            val_off: val_off as u16,
            val_len,
        };
        self.toc.insert(idx, entry);
        self.free_space = Nloc {
            off: self.free_space.off + key_len,
            len: self.free_space.len - key_len - val_len,
        };
        let ghost placed = self@;
        assert(placed =~= old(self)@.var_placed(idx as int, key@, val@));

        // Grow the table if it has outgrown its room.
        let used: u16 = used as u16;
        if used > self.table_space.len {
            let extra: u16 = used - self.table_space.len;
            if self.free_space.len < extra {
                return Err(bad_btree("insert_leaf_var: cannot grow toc"));
            }
            self.table_space = Nloc { off: self.table_space.off, len: used };
            if self.free_space.off < extra {
                return Err(bad_btree("insert_leaf_var: free_space.off underflow on grow"));
            }
            // The keys now start `extra` bytes later, while the bytes
            // themselves stay where they are.
            self.free_space = Nloc {
                off: self.free_space.off - extra,
                len: self.free_space.len - extra,
            };
            let moved = self.shift_key_offsets(extra);
            assert(self@ =~= placed.var_grown(used as int).1);
            if !moved {
                return Err(bad_btree("insert_leaf_var: toc grow overflowed key_off"));
            }
        }
        Ok(())
    }

    /// Move key offsets down by `extra`, up to the first that is too small.
    fn shift_key_offsets(&mut self, extra: u16) -> (r: bool)
        ensures
            r == (first_short(old(self)@.toc, extra as int, 0) >= old(self)@.toc.len()),
            final(self)@ == (NodeView {
                toc: shift_keys(
                    old(self)@.toc,
                    extra as int,
                    first_short(old(self)@.toc, extra as int, 0),
                ),
                ..old(self)@
            }),
    {
        let ghost before = self@;
        let mut i: usize = 0;
        assert(self@.toc =~= shift_keys(before.toc, extra as int, 0));
        while i < self.toc.len()
            invariant
                i <= self.toc.len(),
                self.toc@.len() == before.toc.len(),
                self@ == (NodeView { toc: self@.toc, ..before }),
                self@.toc == shift_keys(before.toc, extra as int, i as int),
                first_short(before.toc, extra as int, 0) == first_short(
                    before.toc,
                    extra as int,
                    i as int,
                ),
                before == old(self)@,
            decreases self.toc.len() - i,
        {
            let entry = self.toc[i];
            assert(entry == before.toc[i as int]);
            if entry.key_off < extra {
                return false;
            }
            self.toc[i] = TocEntry {
                key_off: entry.key_off - extra,
                key_len: entry.key_len,
                val_off: entry.val_off,
                val_len: entry.val_len,
            };
            assert(self@.toc =~= shift_keys(before.toc, extra as int, i + 1));
            i += 1;
        }
        true
    }

    /// Remove the `i`-th entry from a leaf of variable sizes. The bytes of key
    /// and value are not compacted; later inserts only take from the free
    /// space past the live keys.
    pub fn delete_leaf_var(&mut self, i: usize) -> (r: Result<(), ApfsError>)
        ensures
            (plain(r), final(self)@) == old(self)@.delete_var(i as int),
    {
        if !self.is_leaf() {
            return Err(bad_btree("delete_leaf_var on non-leaf"));
        }
        if self.fixed_kv() {
            return Err(bad_btree("delete_leaf_var on fixed-KV node"));
        }
        if i >= self.toc.len() {
            return Err(bad_btree("delete_leaf_var: idx oob"));
        }
        self.toc.remove(i);
        Ok(())
    }

    fn encode_toc(&self) -> (v: Vec<u8>)
        ensures
            v@ == toc_bytes(self@.toc, self@.fixed_kv()),
    {
        let fixed = self.fixed_kv();
        let mut v: Vec<u8> = Vec::new();
        let mut i: usize = 0;
        while i < self.toc.len()
            invariant
                i <= self.toc.len(),
                fixed == self@.fixed_kv(),
                v@ == toc_bytes(self.toc@.subrange(0, i as int), fixed),
            decreases self.toc.len() - i,
        {
            let e = self.toc[i];
            let ghost before = v@;
            push_u16(&mut v, e.key_off);
            if !fixed {
                push_u16(&mut v, e.key_len);
            }
            push_u16(&mut v, e.val_off);
            if !fixed {
                push_u16(&mut v, e.val_len);
            }
            proof {
                assert(v@ =~= before + entry_bytes(e, fixed));
                let next = self.toc@.subrange(0, i + 1);
                assert(next.drop_last() =~= self.toc@.subrange(0, i as int));
            }
            i += 1;
        }
        assert(self.toc@.subrange(0, self.toc@.len() as int) =~= self.toc@);
        v
    }

    fn encode_prefix(&self) -> (v: Vec<u8>)
        ensures
            v@ == self@.prefix_bytes(),
            v@.len() == 24,
    {
        broadcast use group_bytes_len;

        let mut v: Vec<u8> = Vec::new();
        push_u16(&mut v, self.flags);
        push_u16(&mut v, self.level);
        push_u32(&mut v, self.toc.len() as u32);
        self.table_space.push(&mut v);
        self.free_space.push(&mut v);
        self.key_free_list.push(&mut v);
        self.val_free_list.push(&mut v);
        assert(v@ =~= self@.prefix_bytes());
        v
    }

    /// Write back the node with a fresh checksum and return the block bytes.
    pub fn serialize(&mut self) -> (r: Result<&[u8], ApfsError>)
        ensures
            (slice_outcome(r), final(self)@) == old(self)@.serialize(),
    {
        let ghost before = self@;
        let toc = self.encode_toc();
        proof {
            lemma_toc_bytes_len(before.toc, before.fixed_kv());
        }
        let toc_off: usize = BTNODE_FIXED_PREFIX + self.table_space.off as usize;
        if self.block.len() < BTNODE_FIXED_PREFIX || toc_off > self.block.len() || toc.len()
            > self.block.len() - toc_off {
            return Err(bad_btree("serialize: node overflows block"));
        }
        let head = self.header.to_bytes();
        put_bytes(self.block.as_mut_slice(), 0, head.as_slice());
        let prefix = self.encode_prefix();
        put_bytes(self.block.as_mut_slice(), OBJECT_HEADER_SIZE, prefix.as_slice());
        put_bytes(self.block.as_mut_slice(), toc_off, toc.as_slice());
        match &self.info {
            Some(info) => {
                let foot = info.to_bytes();
                let info_off: usize = self.block.len() - BTREE_INFO_SIZE;
                put_bytes(self.block.as_mut_slice(), info_off, foot.as_slice());
            },
            None => {},
        }
        assert(self.block@ == before.written());
        refresh_object_checksum(self.block.as_mut_slice())?;
        Ok(self.block.as_slice())
    }
}

/// The size of a table.
pub proof fn lemma_toc_bytes_len(toc: Seq<TocEntry>, fixed: bool)
    ensures
        toc_bytes(toc, fixed).len() == entry_size(fixed) * toc.len(),
    decreases toc.len(),
{
    broadcast use group_bytes_len;

    if toc.len() > 0 {
        lemma_toc_bytes_len(toc.drop_last(), fixed);
        let n = toc.len();
        let s = entry_size(fixed);
        assert(s * n == s * (n - 1) + s) by (nonlinear_arith);
    }
}

} // verus!
