use arfw::apfs::catalog::{
    decode_catalog_key, DrecVal, FileExtentVal, InodeVal, DT_REG, INODE_FILE_TYPE,
    INO_EXT_TYPE_DSTREAM, J_TYPE_INODE,
};

#[test]
fn drec_val_roundtrip() {
    let d = DrecVal {
        file_id: 0xDEADBEEF,
        date_added: -123456,
        flags: DT_REG,
    };
    let parsed = DrecVal::parse(&d.to_bytes()).unwrap();
    assert_eq!(parsed.file_id, d.file_id);
    assert_eq!(parsed.flags, d.flags);
}

#[test]
fn file_extent_roundtrip_preserves_flags_and_length() {
    let e = FileExtentVal::from_length_and_flags(0x4000, 0x12, 999, 7);
    let parsed = FileExtentVal::parse(&e.to_bytes()).unwrap();
    assert_eq!(parsed.length(), 0x4000);
    assert_eq!(parsed.phys_block_num, 999);
    assert_eq!(parsed.crypto_id, 7);
    assert_eq!(parsed.flags_and_length, e.flags_and_length);
}

#[test]
fn inode_roundtrip_no_xfields() {
    let i = InodeVal {
        parent_id: 1,
        private_id: 16,
        create_time: 1_000,
        modify_time: 2_000,
        change_time: 3_000,
        access_time: 4_000,
        internal_flags: 0,
        nchildren_or_nlink: 1,
        default_protection_class: 0,
        write_generation_counter: 1,
        bsd_flags: 0,
        uid: 501,
        gid: 20,
        mode: INODE_FILE_TYPE | 0o644,
        pad1: 0,
        uncompressed_size: 4096,
        dstream_size: None,
    };
    let bytes = i.serialize_with_xfields(&[]).unwrap();
    let parsed = InodeVal::parse(&bytes).unwrap();
    assert_eq!(parsed.uid, i.uid);
    assert_eq!(parsed.mode, i.mode);
    assert_eq!(parsed.uncompressed_size, i.uncompressed_size);
}

#[test]
fn dstream_xfield_is_recognised() {
    let mut xf = Vec::new();
    xf.extend_from_slice(&1u16.to_le_bytes()); // num_exts
    xf.extend_from_slice(&8u16.to_le_bytes()); // used_data
    xf.push(INO_EXT_TYPE_DSTREAM);
    xf.push(0u8);
    xf.extend_from_slice(&8u16.to_le_bytes());
    xf.extend_from_slice(&0x1234_5678u64.to_le_bytes());

    let i = InodeVal {
        parent_id: 2,
        private_id: 100,
        create_time: 0,
        modify_time: 0,
        change_time: 0,
        access_time: 0,
        internal_flags: 0,
        nchildren_or_nlink: 1,
        default_protection_class: 0,
        write_generation_counter: 0,
        bsd_flags: 0,
        uid: 0,
        gid: 0,
        mode: INODE_FILE_TYPE | 0o600,
        pad1: 0,
        uncompressed_size: 0,
        dstream_size: None,
    };
    let bytes = i.serialize_with_xfields(&xf).unwrap();
    let parsed = InodeVal::parse(&bytes).unwrap();
    assert_eq!(parsed.dstream_size, Some(0x1234_5678));
    assert_eq!(parsed.size(), 0x1234_5678);
}

#[test]
fn decode_catalog_key_splits_oid_and_type() {
    // type=J_TYPE_INODE (3) in top 4 bits, oid=0x123 in low bits
    let raw: u64 = 0x123 | ((J_TYPE_INODE as u64) << 60);
    let bytes = raw.to_le_bytes();
    let (oid, t) = decode_catalog_key(&bytes).unwrap();
    assert_eq!(oid, 0x123);
    assert_eq!(t, J_TYPE_INODE);
}
