//! Where numbers stand in the structures on disk.

use crate::apfs::btree::node::{
    has_fixed_flag, has_leaf_flag, has_root_flag, info_of, node_outcome, NodeView,
};
use crate::apfs::bytes::{
    bytes_u16, bytes_u32, bytes_u64, group_bytes_len, le, le_i32, le_i64, le_u16, le_u32, le_u64, lemma_bytes_u32_len,
    lemma_bytes_u64_len, lemma_le_bound, lemma_pow256, lemma_read_u16, lemma_read_u32, lemma_read_u64,
};
use crate::apfs::catalog::query::drec_kind;
use crate::apfs::catalog::records::{
    drec_file_type, drec_key_outcome, drec_outcome, dstream_among, dstream_size_of,
    dstream_xfields,
    extent_length, extent_outcome, inode_outcome, key_head, key_outcome, mode_kind,
    name_len_and_hash, InodeVal, JDstream,
    J_TYPE_DIR_REC, J_TYPE_DSTREAM_ID, J_TYPE_FILE_EXTENT, J_TYPE_INODE, J_TYPE_XATTR,
    ROOT_DIR_RECORD,
};
use crate::apfs::checkpoint::checkpoint_map_outcome;
use crate::apfs::extentref::{ext_key_outcome, ext_val_outcome};
use crate::apfs::object::{flags_of, header_of, header_outcome, type_of};
use crate::apfs::omap::{omap_key_of, omap_val_of};
use crate::apfs::packed::packed;
use crate::apfs::spaceman::layout::{cib_outcome, spaceman_outcome};
use crate::apfs::superblock::{apfs_outcome, nx_outcome};
use crate::apfs::types::EntryKind;
use crate::apfs::volume::read::inode_kind;
use vstd::utf8::encode_utf8;
use vstd::prelude::*;

verus! {

/// Two bytes as a number, the lower one in front.
pub open spec fn two_at(b: Seq<u8>, o: int) -> int {
    b[o] + 0x100 * b[o + 1]
}

/// Four bytes as a number, the lowest one in front.
pub open spec fn four_at(b: Seq<u8>, o: int) -> int {
    two_at(b, o) + 0x1_0000 * two_at(b, o + 2)
}

/// Eight bytes as a number, the lowest one in front.
pub open spec fn eight_at(b: Seq<u8>, o: int) -> int {
    four_at(b, o) + 0x1_0000_0000 * four_at(b, o + 4)
}

/// Four bytes as a number with a sign.
pub open spec fn signed_four_at(b: Seq<u8>, o: int) -> int {
    if four_at(b, o) < 0x8000_0000 {
        four_at(b, o)
    } else {
        four_at(b, o) - 0x1_0000_0000
    }
}

/// Eight bytes as a number with a sign.
pub open spec fn signed_eight_at(b: Seq<u8>, o: int) -> int {
    if eight_at(b, o) < 0x8000_0000_0000_0000 {
        eight_at(b, o)
    } else {
        eight_at(b, o) - 0x1_0000_0000_0000_0000
    }
}

/// Numbers are stored with the lowest byte in front, and negative ones in two's
/// complement.
pub proof fn law_numbers_are_little_endian(b: Seq<u8>, o: int)
    requires
        0 <= o,
    ensures
        o + 2 <= b.len() ==> le_u16(b, o) == two_at(b, o),
        o + 4 <= b.len() ==> le_u32(b, o) == four_at(b, o) && le_i32(b, o) == signed_four_at(b, o),
        o + 8 <= b.len() ==> le_u64(b, o) == eight_at(b, o) && le_i64(b, o) == signed_eight_at(
            b,
            o,
        ),
{
    lemma_pow256();
    reveal_with_fuel(le, 9);
    if o + 2 <= b.len() {
        let s = b.subrange(o, o + 2);
        lemma_le_bound(s);
        assert(le(s) == two_at(b, o));
    }
    if o + 4 <= b.len() {
        let s = b.subrange(o, o + 4);
        lemma_le_bound(s);
        assert(le(s) == four_at(b, o));
        let x = le_u32(b, o);
        assert(x as i32 == if x < 0x8000_0000u32 {
            x as int
        } else {
            x - 0x1_0000_0000
        }) by (bit_vector);
    }
    if o + 8 <= b.len() {
        let s = b.subrange(o, o + 8);
        lemma_le_bound(s);
        assert(le(s) == eight_at(b, o));
        let x = le_u64(b, o);
        assert(x as i64 == if x < 0x8000_0000_0000_0000u64 {
            x as int
        } else {
            x - 0x1_0000_0000_0000_0000
        }) by (bit_vector);
    }
}

/// All numbers of a block at once.
proof fn lemma_numbers(b: Seq<u8>)
    ensures
        forall|o: int| 0 <= o && o + 2 <= b.len() ==> #[trigger] le_u16(b, o) == two_at(b, o),
        forall|o: int| 0 <= o && o + 4 <= b.len() ==> #[trigger] le_u32(b, o) == four_at(b, o),
        forall|o: int|
            0 <= o && o + 4 <= b.len() ==> #[trigger] le_i32(b, o) == signed_four_at(b, o),
        forall|o: int| 0 <= o && o + 8 <= b.len() ==> #[trigger] le_u64(b, o) == eight_at(b, o),
        forall|o: int|
            0 <= o && o + 8 <= b.len() ==> #[trigger] le_i64(b, o) == signed_eight_at(b, o),
{
    assert forall|o: int| 0 <= o && o + 2 <= b.len() implies #[trigger] le_u16(b, o) == two_at(
        b,
        o,
    ) by {
        law_numbers_are_little_endian(b, o);
    }
    assert forall|o: int| 0 <= o && o + 4 <= b.len() implies #[trigger] le_u32(b, o) == four_at(
        b,
        o,
    ) by {
        law_numbers_are_little_endian(b, o);
    }
    assert forall|o: int| 0 <= o && o + 4 <= b.len() implies #[trigger] le_i32(b, o)
        == signed_four_at(b, o) by {
        law_numbers_are_little_endian(b, o);
    }
    assert forall|o: int| 0 <= o && o + 8 <= b.len() implies #[trigger] le_u64(b, o) == eight_at(
        b,
        o,
    ) by {
        law_numbers_are_little_endian(b, o);
    }
    assert forall|o: int| 0 <= o && o + 8 <= b.len() implies #[trigger] le_i64(b, o)
        == signed_eight_at(b, o) by {
        law_numbers_are_little_endian(b, o);
    }
}

/// An object starts with its checksum, its identifier, its transaction, its
/// type with flags above it, and its subtype.
pub proof fn law_header_layout(b: Seq<u8>)
    ensures
        b.len() < 32 <==> header_outcome(b) is Err,
        b.len() >= 32 ==> (header_outcome(b) matches Ok(h) && {
            &&& h.checksum == b.subrange(0, 8)
            &&& h.oid == eight_at(b, 8)
            &&& h.xid == eight_at(b, 16)
            &&& h.raw_type == four_at(b, 24)
            &&& h.subtype == four_at(b, 28)
            &&& type_of(h.raw_type) == two_at(b, 24)
            &&& flags_of(h.raw_type) == two_at(b, 26)
        }),
{
    lemma_numbers(b);
    if b.len() >= 32 {
        let x = le_u32(b, 24);
        assert(type_of(x) == x % 0x1_0000 && flags_of(x) == x / 0x1_0000) by (bit_vector);
    }
}

/// A catalog key starts with a word of the object identifier, in its low 60
/// bits, and the type of the record.
pub proof fn law_catalog_key_layout(b: Seq<u8>)
    ensures
        b.len() < 8 <==> key_outcome(b) is Err,
        b.len() >= 8 ==> (key_outcome(b) matches Ok((oid, kind)) && {
            &&& oid == eight_at(b, 0) % 0x1000_0000_0000_0000
            &&& kind == eight_at(b, 0) / 0x1000_0000_0000_0000
        }),
{
    lemma_numbers(b);
}

/// An inode has its parent, its data stream, the times of its creation, last
/// write, last change and last access, its flags, the number of its children
/// or names, its owner and its mode at fixed places, and extended fields behind
/// them.
pub proof fn law_inode_layout(b: Seq<u8>)
    ensures
        b.len() < 92 <==> inode_outcome(b) is Err,
        b.len() >= 92 ==> (inode_outcome(b) matches Ok(i) && {
            &&& i.parent_id == eight_at(b, 0)
            &&& i.private_id == eight_at(b, 8)
            &&& i.create_time == signed_eight_at(b, 16)
            &&& i.modify_time == signed_eight_at(b, 24)
            &&& i.change_time == signed_eight_at(b, 32)
            &&& i.access_time == signed_eight_at(b, 40)
            &&& i.internal_flags == eight_at(b, 48)
            &&& i.nchildren_or_nlink == signed_four_at(b, 56)
            &&& i.default_protection_class == four_at(b, 60)
            &&& i.write_generation_counter == four_at(b, 64)
            &&& i.bsd_flags == four_at(b, 68)
            &&& i.uid == four_at(b, 72)
            &&& i.gid == four_at(b, 76)
            &&& i.mode == two_at(b, 80)
            &&& i.pad1 == two_at(b, 82)
            &&& i.uncompressed_size == eight_at(b, 84)
            &&& i.dstream_size == dstream_size_of(b.subrange(92, b.len() as int))
        }),
{
    lemma_numbers(b);
}

/// The kind of an object is what the highest four bits of its mode say: 4 is a
/// directory, 10 a symbolic link, and everything else counts as a file.
pub proof fn law_mode_tells_kind(i: InodeVal)
    ensures
        inode_kind(i) == EntryKind::Directory <==> i.mode / 0x1000 == 4,
        inode_kind(i) == EntryKind::Symlink <==> i.mode / 0x1000 == 10,
        inode_kind(i) == EntryKind::File <==> i.mode / 0x1000 != 4 && i.mode / 0x1000 != 10,
        mode_kind(i.mode) == i.mode - i.mode % 0x1000,
{
    let m = i.mode;
    assert(m & 0o170000 == m - m % 0x1000) by (bit_vector);
}

/// A directory record has the object that it names, the time at which it was
/// added, and in its last two bytes the kind of the entry: 4 is a directory, 10
/// a symbolic link, and everything else counts as a file.
pub proof fn law_directory_record_layout(b: Seq<u8>)
    ensures
        b.len() < 18 <==> drec_outcome(b) is Err,
        b.len() >= 18 ==> (drec_outcome(b) matches Ok(d) && {
            &&& d.file_id == eight_at(b, 0)
            &&& d.date_added == signed_eight_at(b, 8)
            &&& d.flags == two_at(b, 16)
            &&& drec_file_type(d.flags) == b[16] % 16
            &&& drec_kind(d) == EntryKind::Directory <==> b[16] % 16 == 4
            &&& drec_kind(d) == EntryKind::Symlink <==> b[16] % 16 == 10
        }),
{
    lemma_numbers(b);
    if b.len() >= 18 {
        let f = le_u16(b, 16);
        assert(f & 0x000F == f % 16) by (bit_vector);
    }
}

/// An extent has its length in the low 56 bits of its first word, then the
/// block at which it starts, and the key that it is encrypted with.
pub proof fn law_extent_layout(b: Seq<u8>)
    ensures
        b.len() < 24 <==> extent_outcome(b) is Err,
        b.len() >= 24 ==> (extent_outcome(b) matches Ok(e) && {
            &&& extent_length(e) == eight_at(b, 0) % 0x100_0000_0000_0000
            &&& e.flags_and_length == eight_at(b, 0)
            &&& e.phys_block_num == eight_at(b, 8)
            &&& e.crypto_id == eight_at(b, 16)
        }),
{
    lemma_numbers(b);
}

/// The word in front of a name in the key of a directory record: the length of
/// the name with the zero that ends it in the low ten bits, and the hash of the
/// name above them. The name and the zero follow.
pub proof fn law_directory_key_layout(parent: u64, name: Seq<char>, hash: u32)
    requires
        parent < 0x1000_0000_0000_0000,
        hash < 0x40_0000,
    ensures
        ({
            let n = encode_utf8(name).len();
            &&& n >= 1023 <==> drec_key_outcome(parent, name, hash) is Err
            &&& n < 1023 ==> (drec_key_outcome(parent, name, hash) matches Ok(k) && {
                &&& k.len() == n + 13
                &&& eight_at(k, 0) == parent + 9 * 0x1000_0000_0000_0000
                &&& four_at(k, 8) == n + 1 + hash * 1024
                &&& k.subrange(12, 12 + n as int) == encode_utf8(name)
                &&& k[12 + n as int] == 0
            })
        }),
{
    let text = encode_utf8(name);
    let n = text.len();
    if n < 1023 {
        let k = drec_key_outcome(parent, name, hash)->Ok_0;
        lemma_numbers(k);
        lemma_bytes_u64_len(
            packed(parent, 9),
        );
        let w = name_len_and_hash(n + 1, hash);
        lemma_bytes_u32_len(w);
        assert(k.subrange(0, 8) =~= key_head(parent, 9));
        assert(k.subrange(8, 12) =~= bytes_u32(w));
        lemma_read_u64(k, 0, packed(parent, 9));
        lemma_read_u32(k, 8, w);
        assert(k.subrange(12, 12 + n as int) =~= text);
    }
}

/// The container superblock is type 1 and carries the letters NXSB.
#[verifier::rlimit(40)]
pub proof fn law_container_layout(b: Seq<u8>)
    requires
        b.len() >= 984,
    ensures
        nx_outcome(b) is Ok <==> two_at(b, 24) == 1 && four_at(b, 32) == 0x4253584E,
        nx_outcome(b) matches Ok(n) ==> {
            &&& n.header == header_of(b)
            &&& n.magic == four_at(b, 32)
            &&& n.block_size == four_at(b, 36)
            &&& n.block_count == eight_at(b, 40)
            &&& n.features == eight_at(b, 48)
            &&& n.readonly_compatible_features == eight_at(b, 56)
            &&& n.incompatible_features == eight_at(b, 64)
            &&& n.uuid == b.subrange(72, 88)
            &&& n.next_oid == eight_at(b, 88)
            &&& n.next_xid == eight_at(b, 96)
            &&& n.xp_desc_blocks == four_at(b, 104)
            &&& n.xp_data_blocks == four_at(b, 108)
            &&& n.xp_desc_base == eight_at(b, 112)
            &&& n.xp_data_base == eight_at(b, 120)
            &&& n.xp_desc_next == four_at(b, 128)
            &&& n.xp_data_next == four_at(b, 132)
            &&& n.xp_desc_index == four_at(b, 136)
            &&& n.xp_desc_len == four_at(b, 140)
            &&& n.xp_data_index == four_at(b, 144)
            &&& n.xp_data_len == four_at(b, 148)
            &&& n.spaceman_oid == eight_at(b, 152)
            &&& n.omap_oid == eight_at(b, 160)
            &&& n.reaper_oid == eight_at(b, 168)
            &&& n.max_file_systems == four_at(b, 180)
            &&& n.fs_oids.len() == 100
            &&& forall|i: int| 0 <= i < 100 ==> #[trigger] n.fs_oids[i] == eight_at(b, 184 + 8 * i)
            &&& n.trailing == b.subrange(984, b.len() as int)
        },
{
    lemma_numbers(b);
    law_header_layout(b);
    if let Ok(n) = nx_outcome(b) {
        assert forall|i: int| 0 <= i < 100 implies #[trigger] n.fs_oids[i] == eight_at(
            b,
            184 + 8 * i,
        ) by {
            assert(n.fs_oids[i] == le_u64(b, 184 + 8 * i));
        }
    }
}

/// The volume superblock is type 13 and carries the letters APSB.
#[verifier::rlimit(40)]
pub proof fn law_volume_layout(b: Seq<u8>)
    requires
        b.len() >= 816,
    ensures
        apfs_outcome(b) is Ok <==> two_at(b, 24) == 13 && four_at(b, 32) == 0x42535041,
        apfs_outcome(b) matches Ok(a) ==> {
            &&& a.header == header_of(b)
            &&& a.magic == four_at(b, 32)
            &&& a.incompat_features == eight_at(b, 56)
            &&& a.omap_oid == eight_at(b, 128)
            &&& a.root_tree_oid == eight_at(b, 136)
            &&& a.extentref_tree_oid == eight_at(b, 144)
            &&& a.snap_meta_tree_oid == eight_at(b, 152)
            &&& a.next_obj_id == eight_at(b, 176)
            &&& a.num_files == eight_at(b, 184)
            &&& a.num_directories == eight_at(b, 192)
            &&& a.num_symlinks == eight_at(b, 200)
            &&& a.num_other_fsobjects == eight_at(b, 208)
            &&& a.num_snapshots == eight_at(b, 216)
            &&& a.vol_uuid == b.subrange(240, 256)
            &&& a.trailing == b.subrange(816, b.len() as int)
        },
{
    lemma_numbers(b);
    law_header_layout(b);
}

/// The keys of an object map have an object and a transaction, and its values
/// flags, a size and the block of the object.
pub proof fn law_object_map_layout(k: Seq<u8>, v: Seq<u8>)
    requires
        k.len() >= 16,
        v.len() >= 16,
    ensures
        omap_key_of(k).oid == eight_at(k, 0),
        omap_key_of(k).xid == eight_at(k, 8),
        omap_val_of(v).flags == four_at(v, 0),
        omap_val_of(v).size == four_at(v, 4),
        omap_val_of(v).paddr == eight_at(v, 8),
{
    lemma_numbers(k);
    lemma_numbers(v);
}

/// The keys of the extent reference tree have the block at which an extent
/// starts, and its values the length in blocks, the kind, the owner and the
/// number of references.
pub proof fn law_extent_reference_layout(k: Seq<u8>, v: Seq<u8>)
    ensures
        k.len() < 8 <==> ext_key_outcome(k) is Err,
        k.len() >= 8 ==> (ext_key_outcome(k) matches Ok(x) && x.paddr == eight_at(k, 0)
            % 0x1000_0000_0000_0000),
        v.len() < 20 <==> ext_val_outcome(v) is Err,
        v.len() >= 20 ==> (ext_val_outcome(v) matches Ok(x) && {
            &&& x.length == eight_at(v, 0) % 0x1000_0000_0000_0000
            &&& x.kind == eight_at(v, 0) / 0x1000_0000_0000_0000
            &&& x.owning_obj_id == eight_at(v, 8)
            &&& x.refcnt == signed_four_at(v, 16)
        }),
{
    lemma_numbers(k);
    lemma_numbers(v);
}

/// The three flags of a node in its first flag byte.
proof fn lemma_node_flags(b: Seq<u8>)
    requires
        b.len() >= 56,
    ensures
        has_root_flag(le_u16(b, 32)) == (b[32] % 2 == 1),
        has_leaf_flag(le_u16(b, 32)) == (b[32] as int / 2 % 2 == 1),
        has_fixed_flag(le_u16(b, 32)) == (b[32] as int / 4 % 2 == 1),
{
    law_numbers_are_little_endian(b, 32);
    let f = le_u16(b, 32);
    assert((f & 1 != 0 <==> f % 2 == 1) && (f & 2 != 0 <==> f / 2 % 2 == 1) && (f & 4 != 0 <==> f
        / 4 % 2 == 1)) by (bit_vector);
}

/// A node of a tree is type 2 or 3. Its flags tell whether it is a root (1), a
/// leaf (2) and of fixed sizes (4). Behind them stand its level, the number of
/// its entries, and where its table, its free space and its lists of free keys
/// and values are.
pub proof fn law_node_layout(b: Seq<u8>)
    requires
        node_outcome(b) is Ok,
    ensures
        ({
            let n = node_outcome(b)->Ok_0;
            &&& two_at(b, 24) == 2 || two_at(b, 24) == 3
            &&& n.header == header_of(b)
            &&& n.block == b
            &&& n.is_root() == (b[32] % 2 == 1)
            &&& n.is_leaf() == (b[32] as int / 2 % 2 == 1)
            &&& n.fixed_kv() == (b[32] as int / 4 % 2 == 1)
            &&& n.level == two_at(b, 34)
            &&& n.toc.len() == four_at(b, 36)
            &&& n.table_space.off == two_at(b, 40) && n.table_space.len == two_at(b, 42)
            &&& n.free_space.off == two_at(b, 44) && n.free_space.len == two_at(b, 46)
            &&& n.key_free_list.off == two_at(b, 48) && n.key_free_list.len == two_at(b, 50)
            &&& n.val_free_list.off == two_at(b, 52) && n.val_free_list.len == two_at(b, 54)
        }),
{
    lemma_numbers(b);
    law_header_layout(b);
    lemma_node_flags(b);
}

/// The table of a node stands behind the 56 bytes of its prefix and the offset
/// of the table. It has four bytes for each entry where the sizes are fixed,
/// and else eight.
pub proof fn law_node_table_layout(b: Seq<u8>, i: int)
    requires
        node_outcome(b) is Ok,
        0 <= i < four_at(b, 36),
    ensures
        ({
            let e = (node_outcome(b)->Ok_0).toc[i];
            let table = 56 + two_at(b, 40);
            if b[32] as int / 4 % 2 == 1 {
                &&& e.key_off == two_at(b, table + 4 * i)
                &&& e.val_off == two_at(b, table + 4 * i + 2)
            } else {
                &&& e.key_off == two_at(b, table + 8 * i)
                &&& e.key_len == two_at(b, table + 8 * i + 2)
                &&& e.val_off == two_at(b, table + 8 * i + 4)
                &&& e.val_len == two_at(b, table + 8 * i + 6)
            }
        }),
{
    let table = 56 + two_at(b, 40);
    law_numbers_are_little_endian(b, 36);
    law_numbers_are_little_endian(b, 40);
    lemma_node_flags(b);
    if b[32] as int / 4 % 2 == 1 {
        law_numbers_are_little_endian(b, table + 4 * i);
        law_numbers_are_little_endian(b, table + 4 * i + 2);
    } else {
        law_numbers_are_little_endian(b, table + 8 * i);
        law_numbers_are_little_endian(b, table + 8 * i + 2);
        law_numbers_are_little_endian(b, table + 8 * i + 4);
        law_numbers_are_little_endian(b, table + 8 * i + 6);
    }
}

/// Keys are counted from the end of the table space, and values from the end of
/// the block, or from the 40 bytes of the footer where the node is a root. The
/// values of an inner node have eight bytes.
pub proof fn law_node_entries_layout(n: NodeView, i: int, key_size: u32, value_size: u32)
    requires
        0 <= i < n.toc.len(),
    ensures
        ({
            let e = n.toc[i];
            let keys = 56 + n.table_space.off + n.table_space.len + e.key_off;
            let values = n.block.len() - e.val_off - (if n.is_root() {
                40int
            } else {
                0
            });
            &&& n.key(i, key_size) matches Ok(k) ==> k == n.block.subrange(
                keys,
                keys + (if n.fixed_kv() {
                    key_size as int
                } else {
                    e.key_len as int
                }),
            )
            &&& n.value(i, value_size) matches Ok(v) ==> v == n.block.subrange(
                values,
                values + (if !n.is_leaf() {
                    8
                } else if n.fixed_kv() {
                    value_size as int
                } else {
                    e.val_len as int
                }),
            )
        }),
{
}

/// The footer of a root tells the flags and sizes of the tree, the longest key
/// and value, and how many keys and nodes there are.
pub proof fn law_tree_footer_layout(b: Seq<u8>, o: int)
    requires
        0 <= o,
        o + 40 <= b.len(),
    ensures
        ({
            let i = info_of(b, o);
            &&& i.flags == four_at(b, o)
            &&& i.node_size == four_at(b, o + 4)
            &&& i.key_size == four_at(b, o + 8)
            &&& i.val_size == four_at(b, o + 12)
            &&& i.longest_key == four_at(b, o + 16)
            &&& i.longest_val == four_at(b, o + 20)
            &&& i.key_count == eight_at(b, o + 24)
            &&& i.node_count == eight_at(b, o + 32)
        }),
{
    lemma_numbers(b);
}

/// A checkpoint map has flags, the number of its mappings, and 40 bytes for
/// each of them: type, subtype and size of the object, its file system, its
/// identifier and its block.
pub proof fn law_checkpoint_map_layout(b: Seq<u8>, i: int)
    ensures
        checkpoint_map_outcome(b) is Ok <==> b.len() >= 40 && 40 + 40 * four_at(b, 36) <= b.len(),
        checkpoint_map_outcome(b) matches Ok(m) ==> {
            &&& m.flags == four_at(b, 32)
            &&& m.count == four_at(b, 36)
            &&& m.xid == eight_at(b, 16)
            &&& m.mappings.len() == m.count
            &&& 0 <= i < m.count ==> {
                &&& m.mappings[i].object_type == four_at(b, 40 + 40 * i)
                &&& m.mappings[i].subtype == four_at(b, 44 + 40 * i)
                &&& m.mappings[i].size == four_at(b, 48 + 40 * i)
                &&& m.mappings[i].fs_oid == eight_at(b, 56 + 40 * i)
                &&& m.mappings[i].oid == eight_at(b, 64 + 40 * i)
                &&& m.mappings[i].paddr == eight_at(b, 72 + 40 * i)
            }
        },
{
    lemma_numbers(b);
}

/// The space manager has its sizes, the record of the main device, whose
/// addresses of chunk info blocks it holds, and that of the second tier.
#[verifier::rlimit(40)]
pub proof fn law_space_manager_layout(b: Seq<u8>, paddr: u64, i: int)
    ensures
        spaceman_outcome(b, paddr) is Ok <==> b.len() >= 320 && four_at(b, 68) == 0 && four_at(
            b,
            80,
        ) + 8 * four_at(b, 64) <= b.len(),
        spaceman_outcome(b, paddr) matches Ok(s) ==> {
            &&& s.block_size == four_at(b, 32)
            &&& s.blocks_per_chunk == four_at(b, 36)
            &&& s.chunks_per_cib == four_at(b, 40)
            &&& s.cibs_per_cab == four_at(b, 44)
            &&& s.dev[0].block_count == eight_at(b, 48)
            &&& s.dev[0].chunk_count == eight_at(b, 56)
            &&& s.dev[0].cib_count == four_at(b, 64)
            &&& s.dev[0].cab_count == four_at(b, 68)
            &&& s.dev[0].free_count == eight_at(b, 72)
            &&& s.dev[0].addr_offset == four_at(b, 80)
            &&& s.dev[1].block_count == eight_at(b, 96)
            &&& s.dev[1].free_count == eight_at(b, 120)
            &&& s.flags == four_at(b, 144)
            &&& s.ip_bm_tx_multiplier == four_at(b, 148)
            &&& s.ip_block_count == eight_at(b, 152)
            &&& s.ip_bm_size_in_blocks == four_at(b, 160)
            &&& s.ip_bm_block_count == four_at(b, 164)
            &&& s.ip_bm_base == eight_at(b, 168)
            &&& s.ip_base == eight_at(b, 176)
            &&& s.fs_reserve_block_count == eight_at(b, 184)
            &&& s.fs_reserve_alloc_count == eight_at(b, 192)
            &&& s.fq[0].count == eight_at(b, 200)
            &&& s.fq[1].count == eight_at(b, 240)
            &&& s.fq[2].count == eight_at(b, 280)
            &&& s.fq[0].tree_oid == eight_at(b, 208)
            &&& s.fq[1].tree_oid == eight_at(b, 248)
            &&& s.fq[2].tree_oid == eight_at(b, 288)
            &&& s.fq[0].oldest_xid == eight_at(b, 216)
            &&& s.fq[1].oldest_xid == eight_at(b, 256)
            &&& s.fq[2].oldest_xid == eight_at(b, 296)
            &&& s.main_cib_addrs.len() == four_at(b, 64)
            &&& 0 <= i < four_at(b, 64) ==> s.main_cib_addrs[i] == eight_at(
                b,
                four_at(b, 80) + 8 * i,
            )
            &&& s.raw_block == b
            &&& s.paddr == paddr
        },
{
    lemma_numbers(b);
}

/// A chunk info block has its index, the number of its chunks, and 32 bytes for
/// each of them: transaction, first block, number of blocks, number of free
/// ones, and the block of the bitmap.
pub proof fn law_chunk_info_layout(b: Seq<u8>, paddr: u64, i: int)
    ensures
        cib_outcome(b, paddr) is Ok <==> b.len() >= 40 && 40 + 32 * four_at(b, 36) <= b.len(),
        cib_outcome(b, paddr) matches Ok(c) ==> {
            &&& c.index == four_at(b, 32)
            &&& c.chunk_info_count == four_at(b, 36)
            &&& c.chunks.len() == four_at(b, 36)
            &&& 0 <= i < four_at(b, 36) ==> {
                &&& c.chunks[i].xid == eight_at(b, 40 + 32 * i)
                &&& c.chunks[i].addr == eight_at(b, 48 + 32 * i)
                &&& c.chunks[i].block_count == four_at(b, 56 + 32 * i)
                &&& c.chunks[i].free_count == four_at(b, 60 + 32 * i)
                &&& c.chunks[i].bitmap_addr == eight_at(b, 64 + 32 * i)
            }
            &&& c.raw_block == b
            &&& c.paddr == paddr
        },
{
    lemma_numbers(b);
}

/// Where the data of the `k`th extended field starts: behind the counter and
/// the descriptors, each field filled up to a multiple of eight bytes.
pub open spec fn field_start(b: Seq<u8>, k: int) -> int
    decreases k,
{
    if k <= 0 {
        4 + 4 * two_at(b, 0)
    } else {
        field_start(b, k - 1) + (two_at(b, 4 * k + 2) + 7) / 8 * 8
    }
}

proof fn lemma_dstream_among(b: Seq<u8>, k: int, i: int)
    requires
        b.len() >= 4,
        4 + 4 * two_at(b, 0) <= b.len(),
        0 <= i <= k < two_at(b, 0),
        forall|j: int|
            0 <= j < k ==> (#[trigger] b[4 + 4 * j]) != 8 || two_at(b, 6 + 4 * j) < 8,
        b[4 + 4 * k] == 8,
        two_at(b, 6 + 4 * k) >= 8,
    ensures
        dstream_among(b, two_at(b, 0), i, field_start(b, i)) == dstream_among(
            b,
            two_at(b, 0),
            k,
            field_start(b, k),
        ),
    decreases k - i,
{
    lemma_numbers(b);
    if i < k {
        assert(b[4 + 4 * i] != 8 || two_at(b, 6 + 4 * i) < 8);
        lemma_dstream_among(b, k, i + 1);
    }
}

/// The size of a file is the number that its data stream field starts with: the
/// first extended field of type 8 that has eight bytes or more.
pub proof fn law_data_stream_layout(b: Seq<u8>, k: int)
    requires
        b.len() >= 4,
        4 + 4 * two_at(b, 0) <= b.len(),
        0 <= k < two_at(b, 0),
        forall|j: int|
            0 <= j < k ==> (#[trigger] b[4 + 4 * j]) != 8 || two_at(b, 6 + 4 * j) < 8,
        b[4 + 4 * k] == 8,
        two_at(b, 6 + 4 * k) >= 8,
        field_start(b, k) + 8 <= b.len(),
    ensures
        dstream_size_of(b) == Some(eight_at(b, field_start(b, k)) as u64),
{
    lemma_numbers(b);
    lemma_dstream_among(b, k, 0);
    lemma_field_start(b, k);
}

proof fn lemma_field_start(b: Seq<u8>, k: int)
    requires
        b.len() >= 4,
        4 + 4 * two_at(b, 0) <= b.len(),
        0 <= k <= two_at(b, 0),
    ensures
        field_start(b, k) >= 4,
    decreases k,
{
    if k > 0 {
        lemma_field_start(b, k - 1);
    }
}

/// The numbers of the record types and of the root directory.
pub proof fn law_record_types()
    ensures
        J_TYPE_INODE == 3,
        J_TYPE_XATTR == 4,
        J_TYPE_DSTREAM_ID == 6,
        J_TYPE_FILE_EXTENT == 8,
        J_TYPE_DIR_REC == 9,
        ROOT_DIR_RECORD == 2,
{
}

/// A data stream field is written as the only one of 40 bytes: one descriptor of
/// type 8, then the size, the allocated size, the key, and how many bytes were
/// written and read.
pub proof fn law_written_data_stream(d: JDstream)
    ensures
        ({
            let b = dstream_xfields(d);
            &&& b.len() == 48
            &&& two_at(b, 0) == 1
            &&& two_at(b, 2) == 40
            &&& b[4] == 8
            &&& b[5] == 0
            &&& two_at(b, 6) == 40
            &&& eight_at(b, 8) == d.size
            &&& eight_at(b, 16) == d.alloced_size
            &&& eight_at(b, 24) == d.default_crypto_id
            &&& eight_at(b, 32) == d.total_bytes_written
            &&& eight_at(b, 40) == d.total_bytes_read
        }),
{
    broadcast use group_bytes_len;

    let b = dstream_xfields(d);
    lemma_numbers(b);
    assert(b.subrange(0, 2) =~= bytes_u16(1));
    assert(b.subrange(2, 4) =~= bytes_u16(40));
    assert(b.subrange(6, 8) =~= bytes_u16(40));
    assert(b.subrange(8, 16) =~= bytes_u64(d.size));
    assert(b.subrange(16, 24) =~= bytes_u64(d.alloced_size));
    assert(b.subrange(24, 32) =~= bytes_u64(d.default_crypto_id));
    assert(b.subrange(32, 40) =~= bytes_u64(d.total_bytes_written));
    assert(b.subrange(40, 48) =~= bytes_u64(d.total_bytes_read));
    lemma_read_u16(b, 0, 1);
    lemma_read_u16(b, 2, 40);
    lemma_read_u16(b, 6, 40);
    lemma_read_u64(b, 8, d.size);
    lemma_read_u64(b, 16, d.alloced_size);
    lemma_read_u64(b, 24, d.default_crypto_id);
    lemma_read_u64(b, 32, d.total_bytes_written);
    lemma_read_u64(b, 40, d.total_bytes_read);
}

} // verus!
