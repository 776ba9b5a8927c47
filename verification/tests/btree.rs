use arfw::apfs::btree::{
    btree_lookup, btree_lookup_with_leaf, btree_scan, btree_scan_with_leaves, flags, BTreeInfo,
    BTreeNode, Nloc, BTNODE_FIXED_PREFIX, BTREE_INFO_SIZE,
};
use arfw::apfs::device::MemoryDevice;
use arfw::apfs::error::ApfsError;
use arfw::apfs::fletcher;
use arfw::apfs::object::{ObjectHeader, OBJECT_TYPE_BTREE_NODE};

/// Build a fixed-KV leaf node for testing. Each entry is a `(key, val)` u64 pair
fn build_fixed_leaf(block_size: usize, entries: &[(u64, u64)], is_root: bool) -> Vec<u8> {
    let mut block = vec![0u8; block_size];
    let header = ObjectHeader {
        checksum: [0; 8],
        oid: 1,
        xid: 1,
        raw_type: OBJECT_TYPE_BTREE_NODE as u32,
        subtype: 0,
    };
    header.write_into(&mut block[..32]).unwrap();

    let mut node_flags = flags::LEAF | flags::FIXED_KV_SIZE;
    if is_root {
        node_flags |= flags::ROOT;
    }
    let p = &mut block[ObjectHeader::SIZE..ObjectHeader::SIZE + 24];
    p[0..2].copy_from_slice(&node_flags.to_le_bytes());
    p[2..4].copy_from_slice(&0u16.to_le_bytes()); // level
    p[4..8].copy_from_slice(&(entries.len() as u32).to_le_bytes());

    // table_space placed at start of btn_data
    let toc_entry_size: u16 = 4;
    let toc_capacity: u16 = (entries.len() as u16) * toc_entry_size + 8; // a little slack
    let table_space = Nloc {
        off: 0,
        len: toc_capacity,
    };
    table_space.write_into(&mut p[8..12]);

    // Lay out keys forward, values backward
    let key_size = 8u16;
    let val_size = 8u16;
    let keys_area_start = BTNODE_FIXED_PREFIX + toc_capacity as usize;
    let val_area_end = if is_root {
        block_size - BTREE_INFO_SIZE
    } else {
        block_size
    };

    // Place keys + record TOC entries
    let mut on_disk_key_off: u16 = 0;
    let mut val_top: u16 = 0; // bytes-from-end-of-val-area to start-of-newest-val-block
    let mut toc_entries = Vec::new();
    for (k, v) in entries {
        let abs_key_off = keys_area_start + on_disk_key_off as usize;
        block[abs_key_off..abs_key_off + 8].copy_from_slice(&k.to_le_bytes());
        val_top += val_size;
        let abs_val_off = val_area_end - val_top as usize;
        block[abs_val_off..abs_val_off + 8].copy_from_slice(&v.to_le_bytes());

        toc_entries.push((on_disk_key_off, val_top));
        on_disk_key_off += key_size;
    }

    // Free space spans whatever is between the end-of-keys and the
    // start-of-values inside btn_data
    let free_off = toc_capacity + on_disk_key_off;
    let free_len = (val_area_end - BTNODE_FIXED_PREFIX) as u16 - free_off - val_top;
    Nloc {
        off: free_off,
        len: free_len,
    }
    .write_into(&mut block[ObjectHeader::SIZE + 12..ObjectHeader::SIZE + 16]);
    // key_free_list / val_free_list = 0
    Nloc { off: 0, len: 0 }
        .write_into(&mut block[ObjectHeader::SIZE + 16..ObjectHeader::SIZE + 20]);
    Nloc { off: 0, len: 0 }
        .write_into(&mut block[ObjectHeader::SIZE + 20..ObjectHeader::SIZE + 24]);

    // Write TOC entries
    let toc_off = BTNODE_FIXED_PREFIX;
    for (i, (k_off, v_off)) in toc_entries.iter().enumerate() {
        let dst = &mut block[toc_off + i * 4..toc_off + (i + 1) * 4];
        dst[0..2].copy_from_slice(&k_off.to_le_bytes());
        dst[2..4].copy_from_slice(&v_off.to_le_bytes());
    }

    // Root footer
    if is_root {
        let info = BTreeInfo {
            flags: 0,
            node_size: block_size as u32,
            key_size: 8,
            val_size: 8,
            longest_key: 8,
            longest_val: 8,
            key_count: entries.len() as u64,
            node_count: 1,
        };
        info.write_into(&mut block[block_size - BTREE_INFO_SIZE..]);
    }

    fletcher::refresh_object_checksum(&mut block).unwrap();
    block
}

#[test]
fn parse_then_lookup_in_synthetic_root_leaf() {
    let block = build_fixed_leaf(4096, &[(1, 100), (5, 500), (9, 900)], true);
    let node = BTreeNode::parse(&block).unwrap();
    assert_eq!(node.nkeys(), 3);
    assert!(node.is_leaf());
    assert!(node.is_root());
    for (i, (k, v)) in [(1u64, 100u64), (5, 500), (9, 900)].iter().enumerate() {
        let key_bytes = node.key_at(i, 8).unwrap();
        let val_bytes = node.value_at(i, 8).unwrap();
        assert_eq!(u64::from_le_bytes(key_bytes.try_into().unwrap()), *k);
        assert_eq!(u64::from_le_bytes(val_bytes.try_into().unwrap()), *v);
    }
}

#[test]
fn replace_value_in_place() {
    let block = build_fixed_leaf(4096, &[(7, 70)], true);
    let mut node = BTreeNode::parse(&block).unwrap();
    node.replace_value(0, &999u64.to_le_bytes(), 8).unwrap();
    let bytes = node.serialize().unwrap().to_vec();
    let reparsed = BTreeNode::parse(&bytes).unwrap();
    let v = u64::from_le_bytes(reparsed.value_at(0, 8).unwrap().try_into().unwrap());
    assert_eq!(v, 999);
}

#[test]
fn serialize_refreshes_checksum() {
    let block = build_fixed_leaf(4096, &[(2, 22)], true);
    let mut node = BTreeNode::parse(&block).unwrap();
    // Mutate something via replace_value to invalidate the checksum, then serialize
    node.replace_value(0, &44u64.to_le_bytes(), 8).unwrap();
    let bytes = node.serialize().unwrap().to_vec();
    assert!(fletcher::verify_object(&bytes));
}

#[test]
fn lookup_returns_none_for_missing_key() {
    let block = build_fixed_leaf(4096, &[(10, 100), (20, 200)], true);
    // Embed in a 1-block "disk" so the lookup helper can read paddr 0
    let reader = MemoryDevice::new(block);
    let cmp = |k: &[u8]| u64::from_le_bytes(k.try_into().unwrap()).cmp(&15u64);
    let res = btree_lookup(&reader, 0, 4096, 8, 8, &cmp, None).unwrap();
    assert!(res.is_none());
}

#[test]
fn lookup_finds_existing_key() {
    let block = build_fixed_leaf(4096, &[(10, 100), (20, 200)], true);
    let reader = MemoryDevice::new(block);
    let cmp = |k: &[u8]| u64::from_le_bytes(k.try_into().unwrap()).cmp(&20u64);
    let val = btree_lookup(&reader, 0, 4096, 8, 8, &cmp, None)
        .unwrap()
        .unwrap();
    assert_eq!(u64::from_le_bytes(val.try_into().unwrap()), 200);
}

#[test]
fn scan_returns_all_matches() {
    let block = build_fixed_leaf(4096, &[(1, 1), (3, 3), (5, 5), (7, 7)], true);
    let reader = MemoryDevice::new(block);
    let predicate = |k: &[u8]| {
        let v = u64::from_le_bytes(k.try_into().unwrap());
        if v > 5 {
            None
        } else {
            Some(v % 2 == 1)
        }
    };
    let matches = btree_scan(&reader, 0, 4096, 8, 8, &predicate, None).unwrap();
    assert_eq!(matches.len(), 3);
}

#[test]
fn lookup_and_scan_say_which_leaf() {
    let mut disk = vec![0u8; 4096];
    disk.extend_from_slice(&build_fixed_leaf(4096, &[(10, 100), (20, 200)], true));
    let reader = MemoryDevice::new(disk);
    let cmp = |k: &[u8]| u64::from_le_bytes(k.try_into().unwrap()).cmp(&10u64);
    let hit = btree_lookup_with_leaf(&reader, 1, 4096, 8, 8, &cmp, None)
        .unwrap()
        .unwrap();
    assert_eq!(hit.0, 100u64.to_le_bytes().to_vec());
    assert_eq!(hit.1, 1);
    let all = btree_scan_with_leaves(&reader, 1, 4096, 8, 8, &|_k: &[u8]| Some(true), None).unwrap();
    assert_eq!(all.len(), 2);
    assert!(all.iter().all(|x| x.2 == 1));
}

#[test]
fn fixed_entries_are_deleted_and_out_of_range_is_refused() {
    let block = build_fixed_leaf(4096, &[(1, 100), (5, 500), (9, 900)], true);
    let mut node = BTreeNode::parse(&block).unwrap();
    node.delete_leaf(1).unwrap();
    let bytes = node.serialize().unwrap().to_vec();
    let again = BTreeNode::parse(&bytes).unwrap();
    assert_eq!(again.nkeys(), 2);
    assert_eq!(again.key_at(1, 8).unwrap(), &9u64.to_le_bytes());
    assert_eq!(again.value_at(1, 8).unwrap(), &900u64.to_le_bytes());
    assert!(matches!(again.key_at(2, 8), Err(ApfsError::BadBTree(_))));
    assert!(matches!(again.value_at(2, 8), Err(ApfsError::BadBTree(_))));
}

#[test]
fn replacing_with_another_length_is_refused() {
    let block = build_fixed_leaf(4096, &[(1, 100)], true);
    let mut node = BTreeNode::parse(&block).unwrap();
    assert!(node.replace_value(0, &[1, 2, 3], 8).is_err());
    assert_eq!(node.value_at(0, 8).unwrap(), &100u64.to_le_bytes());
}

#[test]
fn variable_records_come_and_go() {
    let mut block = vec![0u8; 4096];
    ObjectHeader {
        checksum: [0; 8],
        oid: 1,
        xid: 1,
        raw_type: OBJECT_TYPE_BTREE_NODE as u32,
        subtype: 0,
    }
    .write_into(&mut block)
    .unwrap();
    block[32..34].copy_from_slice(&flags::LEAF.to_le_bytes());
    Nloc { off: 0, len: 64 }.write_into(&mut block[40..44]);
    Nloc { off: 64, len: (4096 - BTNODE_FIXED_PREFIX - 64) as u16 }.write_into(&mut block[44..48]);
    fletcher::refresh_object_checksum(&mut block).unwrap();
    let mut node = BTreeNode::parse(&block).unwrap();
    node.insert_leaf_var(0, b"bb", b"two").unwrap();
    node.insert_leaf_var(0, b"a", b"one").unwrap();
    node.insert_leaf_var(2, b"ccc", b"3").unwrap();
    let bytes = node.serialize().unwrap().to_vec();
    let mut again = BTreeNode::parse(&bytes).unwrap();
    assert_eq!(again.nkeys(), 3);
    assert_eq!(again.key_at(0, 0).unwrap(), b"a");
    assert_eq!(again.value_at(0, 0).unwrap(), b"one");
    assert_eq!(again.key_at(1, 0).unwrap(), b"bb");
    assert_eq!(again.value_at(1, 0).unwrap(), b"two");
    assert_eq!(again.key_at(2, 0).unwrap(), b"ccc");
    assert_eq!(again.value_at(2, 0).unwrap(), b"3");
    again.delete_leaf_var(1).unwrap();
    assert_eq!(again.nkeys(), 2);
    assert_eq!(again.value_at(1, 0).unwrap(), b"3");
}
