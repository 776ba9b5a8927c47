use arfw::apfs::btree::{flags, BTreeInfo, BTreeNode, Nloc, BTNODE_FIXED_PREFIX, BTREE_INFO_SIZE};
use arfw::apfs::catalog::edit::{
    file_extent_key, install_dstream_in_node, plain_key, set_inode_parent_in_node,
};
use arfw::apfs::catalog::{
    build_inode_value, cmp_catalog_keys, dec_inode_counter_in_node, decode_catalog_key_pub,
    delete_records_in_node, encode_drec_hashed_key, find_insert_index, find_record_in_node,
    inc_inode_counter_in_node, insert_drec_record, insert_dstream_id_record,
    insert_file_extent_record, insert_inode_record, set_inode_dstream_size_and_alloc_in_node,
    set_inode_dstream_size_in_node, set_inode_times_in_node, DrecVal, FileExtentVal, InodeVal,
    J_TYPE_DIR_REC, J_TYPE_DSTREAM_ID, J_TYPE_FILE_EXTENT, J_TYPE_INODE,
};
use arfw::apfs::checkpoint::CheckpointMap;
use arfw::apfs::device::MemoryDevice;
use arfw::apfs::error::ApfsError;
use arfw::apfs::extentref::{
    extentref_dec_in_node, extentref_inc_in_node, extentref_insert_in_node, extentref_lookup,
    PhysExtVal,
};
use arfw::apfs::fletcher;
use arfw::apfs::hash::drec_name_hash;
use arfw::apfs::object::{ObjectHeader, OBJECT_TYPE_BTREE, OBJECT_TYPE_CHECKPOINT_MAP};
use arfw::apfs::omap::{omap_insert, omap_lookup, omap_scan};
use arfw::apfs::path::{join_names, parent_path_of, split_last, split_names};
use arfw::apfs::path::{trim_slashes, trim_slashes_end};
use arfw::apfs::text::{decimal_signed_string, decimal_string, hex_string, text2, text_str};
use std::cmp::Ordering;

const BS: usize = 4096;

/// An empty leaf that is the root of its tree.
fn empty_root(fixed: Option<(u32, u32)>) -> BTreeNode {
    let mut block = vec![0u8; BS];
    ObjectHeader {
        checksum: [0; 8],
        oid: 1,
        xid: 1,
        raw_type: OBJECT_TYPE_BTREE as u32,
        subtype: 0,
    }
    .write_into(&mut block)
    .unwrap();
    let kv = if fixed.is_some() { flags::FIXED_KV_SIZE } else { 0 };
    let f = flags::LEAF | flags::ROOT | kv;
    block[32..34].copy_from_slice(&f.to_le_bytes());
    Nloc { off: 0, len: 256 }.write_into(&mut block[40..44]);
    let free = BS - BTREE_INFO_SIZE - BTNODE_FIXED_PREFIX - 256;
    Nloc { off: 256, len: free as u16 }.write_into(&mut block[44..48]);
    let (key_size, val_size) = fixed.unwrap_or((0, 0));
    BTreeInfo {
        flags: 0,
        node_size: BS as u32,
        key_size,
        val_size,
        longest_key: 64,
        longest_val: 64,
        key_count: 0,
        node_count: 1,
    }
    .write_into(&mut block[BS - BTREE_INFO_SIZE..]);
    fletcher::refresh_object_checksum(&mut block).unwrap();
    BTreeNode::parse(&block).unwrap()
}

/// A device whose second block holds a node.
fn device_of(node: &mut BTreeNode) -> MemoryDevice {
    let mut data = vec![0u8; BS];
    data.extend_from_slice(node.serialize().unwrap());
    MemoryDevice::new(data)
}

fn inode_value(parent_id: u64, count: i32) -> Vec<u8> {
    let i = InodeVal {
        parent_id,
        private_id: 7,
        create_time: 1,
        modify_time: 2,
        change_time: 3,
        access_time: 4,
        internal_flags: 0,
        nchildren_or_nlink: count,
        default_protection_class: 0,
        write_generation_counter: 1,
        bsd_flags: 0,
        uid: 501,
        gid: 20,
        mode: 0o100644,
        pad1: 0,
        uncompressed_size: 0,
        dstream_size: None,
    };
    build_inode_value(&i, None).unwrap()
}

fn inode_in(node: &BTreeNode, oid: u64) -> InodeVal {
    let at = find_record_in_node(node, oid, J_TYPE_INODE, None).unwrap().unwrap();
    InodeVal::parse(node.value_at(at, 0).unwrap()).unwrap()
}

#[test]
fn the_newest_mapping_of_an_object_counts() {
    let mut node = empty_root(Some((16, 16)));
    omap_insert(&mut node, BS as u32, 5, 9, 90).unwrap();
    omap_insert(&mut node, BS as u32, 3, 4, 30).unwrap();
    omap_insert(&mut node, BS as u32, 5, 2, 20).unwrap();
    assert_eq!(omap_insert(&mut node, BS as u32, 7, 1, 70).unwrap(), 3);
    let dev = device_of(&mut node);
    assert_eq!(omap_lookup(&dev, 1, BS as u32, 5).unwrap(), 90);
    assert_eq!(omap_lookup(&dev, 1, BS as u32, 3).unwrap(), 30);
    assert_eq!(omap_lookup(&dev, 1, BS as u32, 7).unwrap(), 70);
    assert!(matches!(omap_lookup(&dev, 1, BS as u32, 4), Err(ApfsError::NotFound(_))));
    let all = omap_scan(&dev, 1, BS as u32, 5).unwrap();
    let seen: Vec<(u64, u64)> = all.iter().map(|(k, v)| (k.xid, v.paddr)).collect();
    assert_eq!(seen, vec![(2, 20), (9, 90)]);
}

#[test]
fn references_to_extents_are_counted_in_a_node() {
    let mut node = empty_root(Some((8, 20)));
    let val = PhysExtVal { length: 4, kind: 0, owning_obj_id: 16, refcnt: 1 };
    extentref_insert_in_node(&mut node, 400, val, 2).unwrap();
    extentref_insert_in_node(&mut node, 100, val, 2).unwrap();
    assert_eq!(extentref_inc_in_node(&mut node, 400).unwrap(), 2);
    assert_eq!(extentref_dec_in_node(&mut node, 400).unwrap(), (1, false));
    let dev = device_of(&mut node);
    let (found, leaf) = extentref_lookup(&dev, 1, BS as u32, 400).unwrap().unwrap();
    assert_eq!((found, leaf), (val, 1));
    assert!(extentref_lookup(&dev, 1, BS as u32, 300).unwrap().is_none());
    let (count, gone) = extentref_dec_in_node(&mut node, 100).unwrap();
    assert_eq!((count, gone), (0, true));
    assert!(extentref_inc_in_node(&mut node, 100).is_err());
}

#[test]
fn catalog_keys_are_ordered_by_object_then_kind_then_rest() {
    let inode = plain_key(16, J_TYPE_INODE);
    let stream = plain_key(16, J_TYPE_DSTREAM_ID);
    let first = file_extent_key(16, 0);
    let second = file_extent_key(16, 4096);
    let other = plain_key(17, J_TYPE_INODE);
    let name = |n: &str| {
        encode_drec_hashed_key(16, n, drec_name_hash(n, false).unwrap()).unwrap()
    };
    let sorted = [inode, stream, first, second, name("a"), other];
    for i in 0..sorted.len() {
        assert_eq!(cmp_catalog_keys(&sorted[i], &sorted[i]), Ordering::Equal);
        for j in i + 1..sorted.len() {
            assert_eq!(cmp_catalog_keys(&sorted[i], &sorted[j]), Ordering::Less);
            assert_eq!(cmp_catalog_keys(&sorted[j], &sorted[i]), Ordering::Greater);
        }
    }
    assert_eq!(decode_catalog_key_pub(&sorted[3]).unwrap(), (16, J_TYPE_FILE_EXTENT));
}

#[test]
fn an_inode_is_edited_in_its_leaf() {
    let mut node = empty_root(None);
    insert_inode_record(&mut node, 7, &inode_value(2, 1)).unwrap();
    insert_inode_record(&mut node, 5, &inode_value(2, 3)).unwrap();
    set_inode_times_in_node(&mut node, 7, Some(10), None, Some(30), None).unwrap();
    let i = inode_in(&node, 7);
    assert_eq!((i.create_time, i.modify_time, i.change_time, i.access_time), (10, 2, 30, 4));
    assert!(set_inode_dstream_size_in_node(&mut node, 7, 9).is_err());
    install_dstream_in_node(&mut node, 7, 100, 4096, 50).unwrap();
    assert_eq!(inode_in(&node, 7).dstream_size, Some(100));
    set_inode_dstream_size_in_node(&mut node, 7, 60).unwrap();
    assert_eq!(inode_in(&node, 7).dstream_size, Some(60));
    set_inode_dstream_size_and_alloc_in_node(&mut node, 7, 5000, 8192).unwrap();
    assert_eq!(inode_in(&node, 7).dstream_size, Some(5000));
    inc_inode_counter_in_node(&mut node, 5).unwrap();
    assert_eq!(inode_in(&node, 5).nchildren_or_nlink, 4);
    dec_inode_counter_in_node(&mut node, 5).unwrap();
    assert_eq!(inode_in(&node, 5).nchildren_or_nlink, 3);
    set_inode_parent_in_node(&mut node, 7, 5, 77).unwrap();
    let i = inode_in(&node, 7);
    assert_eq!((i.parent_id, i.dstream_size), (5, Some(5000)));
    assert!(matches!(
        set_inode_times_in_node(&mut node, 6, Some(1), None, None, None),
        Err(ApfsError::NotFound(_))
    ));
}

#[test]
fn records_find_their_place_in_a_leaf() {
    let mut node = empty_root(None);
    insert_file_extent_record(&mut node, 7, 4096, 4096, 91).unwrap();
    insert_inode_record(&mut node, 7, &inode_value(2, 1)).unwrap();
    insert_file_extent_record(&mut node, 7, 0, 4096, 90).unwrap();
    insert_dstream_id_record(&mut node, 7, 1).unwrap();
    insert_drec_record(&mut node, 2, "naïve.txt", 0x3FFFFF, 7, 11, 8).unwrap();
    let keys: Vec<Vec<u8>> = (0..5).map(|i| node.key_at(i, 0).unwrap().to_vec()).collect();
    for w in keys.windows(2) {
        assert_eq!(cmp_catalog_keys(&w[0], &w[1]), Ordering::Less);
    }
    assert_eq!(find_insert_index(&node, &plain_key(1, J_TYPE_INODE)).unwrap(), 0);
    assert_eq!(find_insert_index(&node, &plain_key(9, J_TYPE_INODE)).unwrap(), 5);
    let at = find_record_in_node(&node, 2, J_TYPE_DIR_REC, Some("naïve.txt")).unwrap().unwrap();
    assert_eq!(DrecVal::parse(node.value_at(at, 0).unwrap()).unwrap().file_id, 7);
    assert!(find_record_in_node(&node, 2, J_TYPE_DIR_REC, Some("naive.txt")).unwrap().is_none());
    let at = find_record_in_node(&node, 7, J_TYPE_FILE_EXTENT, None).unwrap().unwrap();
    let e = FileExtentVal::parse(node.value_at(at, 0).unwrap()).unwrap();
    assert_eq!((e.length(), e.phys_block_num), (4096, 90));
    assert_eq!(delete_records_in_node(&mut node, 7, J_TYPE_FILE_EXTENT).unwrap(), 2);
    assert!(find_record_in_node(&node, 7, J_TYPE_FILE_EXTENT, None).unwrap().is_none());
    assert_eq!(node.nkeys(), 3);
}

#[test]
fn a_node_of_fixed_records_refuses_variable_ones() {
    let mut node = empty_root(Some((8, 20)));
    assert!(node.insert_leaf_var(0, b"key", b"value").is_err());
    assert!(node.insert_leaf_fixed(1, &[0; 8], &[0; 20], 8, 20).is_err());
    node.insert_leaf_fixed(0, &[1; 8], &[2; 20], 8, 20).unwrap();
    assert_eq!(node.value_at(0, 20).unwrap(), &[2; 20]);
}

#[test]
fn a_checkpoint_map_tells_where_objects_are() {
    let mut block = vec![0u8; BS];
    ObjectHeader {
        checksum: [0; 8],
        oid: 1,
        xid: 8,
        raw_type: OBJECT_TYPE_CHECKPOINT_MAP as u32,
        subtype: 0,
    }
    .write_into(&mut block)
    .unwrap();
    block[36..40].copy_from_slice(&2u32.to_le_bytes());
    for (i, (oid, paddr)) in [(1024u64, 25u64), (1025, 26)].iter().enumerate() {
        let o = 40 + 40 * i;
        block[o + 24..o + 32].copy_from_slice(&oid.to_le_bytes());
        block[o + 32..o + 40].copy_from_slice(&paddr.to_le_bytes());
    }
    let map = CheckpointMap::parse(&block).unwrap();
    assert_eq!((map.xid, map.mappings.len()), (8, 2));
    assert_eq!(map.lookup(1025), Some(26));
    assert_eq!(map.lookup(1026), None);
    assert!(CheckpointMap::parse(&block[..38]).is_err());
}

#[test]
fn paths_are_taken_apart_and_put_together() {
    let names = |p: &str| split_names(p);
    assert_eq!(names("//a///b c/"), vec!["a".to_string(), "b c".to_string()]);
    assert_eq!(names("/"), Vec::<String>::new());
    assert_eq!(names("a/b/c"), names("/a//b/c//"));
    assert_eq!(trim_slashes("//a/b//"), "a/b");
    assert_eq!(trim_slashes_end("/a//"), "/a");
    assert_eq!(split_last("a/b/c"), ("a/b", "c"));
    assert_eq!(split_last("c"), ("", "c"));
    assert_eq!(parent_path_of("a/b"), "/a/b");
    assert_eq!(parent_path_of(""), "/");
    assert_eq!(join_names(&names("/a/b/c"), 2), "a/b");
}

#[test]
fn numbers_are_spelled() {
    assert_eq!(decimal_string(0), "0");
    assert_eq!(decimal_string(u64::MAX), "18446744073709551615");
    assert_eq!(decimal_signed_string(i64::MIN), "-9223372036854775808");
    assert_eq!(hex_string(0xBEEF, 8), "0x0000beef");
    assert_eq!(text2("need ", 3, ", have ", 40, "."), "need 3, have 40.");
    assert_eq!(text_str("<", "é", ">"), "<é>");
}

/// Write a node and parse what was written.
fn written_and_parsed(node: &mut BTreeNode) -> BTreeNode {
    let block = node.serialize().unwrap().to_vec();
    assert_eq!(block.len(), BS);
    assert!(fletcher::verify_object(&block));
    BTreeNode::parse(&block).unwrap()
}

#[test]
fn a_changed_node_is_read_back() {
    let mut node = empty_root(None);
    let again = written_and_parsed(&mut node);
    assert_eq!(again.nkeys(), 0);
    assert_eq!(again.free_space, node.free_space);
    assert!(again.key_at(0, 0).is_err());
    node.insert_leaf_var(0, b"key two.", b"second").unwrap();
    node.insert_leaf_var(0, b"key one.", b"first").unwrap();
    node.insert_leaf_var(2, b"key three", b"third").unwrap();
    node.replace_value(1, b"SECOND", 0).unwrap();
    node.delete_leaf_var(0).unwrap();
    let again = written_and_parsed(&mut node);
    assert_eq!(again.nkeys(), 2);
    assert_eq!(again.key_at(0, 0).unwrap(), b"key two.");
    assert_eq!(again.value_at(0, 0).unwrap(), b"SECOND");
    assert_eq!(again.key_at(1, 0).unwrap(), b"key three");
    assert_eq!(again.value_at(1, 0).unwrap(), b"third");
    assert_eq!((again.flags, again.level), (node.flags, node.level));
    assert_eq!((again.header.oid, again.header.xid), (1, 1));
    assert_eq!(again.table_space, node.table_space);
    assert_eq!(again.free_space, node.free_space);
    assert_eq!(again.info.unwrap().node_size, BS as u32);
    node.delete_leaf_var(1).unwrap();
    node.delete_leaf_var(0).unwrap();
    assert_eq!(written_and_parsed(&mut node).nkeys(), 0);
}
