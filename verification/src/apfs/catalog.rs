//! APFS catalog (`fstree`).
//!
//! The catalog is a B-tree of variable-sized records that describe inodes,
//! directory records, file extents, extended attributes, and so on. Keys carry
//! both the object identifier (low 60 bits) and the record type (top 4 bits).

pub mod edit;
pub mod order;
pub mod query;
pub mod records;

pub use crate::apfs::catalog::edit::{
    dec_inode_counter_in_node, delete_records_in_node, find_insert_index, find_record_in_node,
    inc_inode_counter_in_node, insert_drec_record, insert_dstream_id_record,
    insert_file_extent_record, insert_inode_record, replace_inode_value_in_node,
    set_inode_dstream_size_and_alloc_in_node, set_inode_dstream_size_in_node,
    set_inode_times_in_node,
};
pub use crate::apfs::catalog::order::cmp_catalog_keys;
pub use crate::apfs::catalog::query::{
    list_directory, lookup_extents, lookup_inode, resolve_path,
};
pub use crate::apfs::catalog::records::{
    build_inode_value, decode_catalog_key, decode_catalog_key_pub, encode_drec_hashed_key,
    encode_obj_id_and_type, DrecVal, FileExtentVal, InodeVal, JDstream, DT_DIR, DT_LNK, DT_REG,
    INODE_DIR_TYPE, INODE_FILE_TYPE, INODE_SYMLINK_TYPE, INO_EXT_TYPE_DSTREAM,
    J_TYPE_CRYPTO_STATE, J_TYPE_DIR_REC, J_TYPE_DIR_STATS, J_TYPE_DSTREAM_ID, J_TYPE_EXTENT,
    J_TYPE_FILE_EXTENT, J_TYPE_INODE, J_TYPE_SIBLING_LINK, J_TYPE_SIBLING_MAP,
    J_TYPE_SNAP_METADATA, J_TYPE_SNAP_NAME, J_TYPE_XATTR, ROOT_DIR_PARENT, ROOT_DIR_RECORD,
};
