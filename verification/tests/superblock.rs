use arfw::apfs::error::ApfsError;
use arfw::apfs::fletcher;
use arfw::apfs::object::{ObjectHeader, OBJECT_TYPE_NX_SUPERBLOCK};
use arfw::apfs::superblock::{NxSuperblock, NX_MAGIC, NX_MAX_FILE_SYSTEMS};

fn put_u32(v: &mut Vec<u8>, x: u32) {
    v.extend_from_slice(&x.to_le_bytes());
}

fn put_u64(v: &mut Vec<u8>, x: u64) {
    v.extend_from_slice(&x.to_le_bytes());
}

fn build_minimal_nxsb_block() -> Vec<u8> {
    let mut head = vec![0u8; 32];
    let header = ObjectHeader {
        checksum: [0; 8],
        oid: 1,
        xid: 5,
        raw_type: OBJECT_TYPE_NX_SUPERBLOCK as u32,
        subtype: 0,
    };
    header.write_into(&mut head).unwrap();
    let mut w = head;
    put_u32(&mut w, NX_MAGIC);
    put_u32(&mut w, 4096); // block_size
    put_u64(&mut w, 16384); // block_count
    put_u64(&mut w, 0); // features
    put_u64(&mut w, 0); // ro_compat
    put_u64(&mut w, 0); // incompat
    w.extend_from_slice(&[0u8; 16]); // uuid
    put_u64(&mut w, 1024); // next_oid
    put_u64(&mut w, 6); // next_xid
    put_u32(&mut w, 8); // xp_desc_blocks
    put_u32(&mut w, 8); // xp_data_blocks
    put_u64(&mut w, 64); // xp_desc_base
    put_u64(&mut w, 72); // xp_data_base
    put_u32(&mut w, 2); // xp_desc_next
    put_u32(&mut w, 2); // xp_data_next
    put_u32(&mut w, 0); // xp_desc_index
    put_u32(&mut w, 2); // xp_desc_len
    put_u32(&mut w, 0); // xp_data_index
    put_u32(&mut w, 2); // xp_data_len
    put_u64(&mut w, 80); // spaceman_oid
    put_u64(&mut w, 96); // omap_oid
    put_u64(&mut w, 0); // reaper_oid
    put_u32(&mut w, 0); // nx_test_type
    put_u32(&mut w, 1); // max_file_systems
    // fs_oids[0..100]
    for i in 0..NX_MAX_FILE_SYSTEMS {
        let v = if i == 0 { 200u64 } else { 0 };
        put_u64(&mut w, v);
    }
    w.resize(4096, 0);
    fletcher::refresh_object_checksum(&mut w).unwrap();
    w
}

#[test]
fn nxsb_roundtrip_preserves_fields_and_checksum() {
    let bytes = build_minimal_nxsb_block();
    let parsed = NxSuperblock::parse(&bytes).unwrap();
    assert_eq!(parsed.magic, NX_MAGIC);
    assert_eq!(parsed.block_size, 4096);
    assert_eq!(parsed.next_xid, 6);
    assert_eq!(parsed.xp_desc_base, 64);
    assert_eq!(parsed.xp_desc_blocks, 8);
    assert_eq!(parsed.fs_oids[0], 200);

    let mut out = vec![0u8; 4096];
    parsed.write_to_block(&mut out).unwrap();
    // The serialised bytes must reverify (and match the input exactly,
    // since our parser captures every byte beyond the prefix)
    assert!(fletcher::verify_object(&out));
    let reparsed = NxSuperblock::parse(&out).unwrap();
    assert_eq!(reparsed.fs_oids[0], 200);
    assert_eq!(reparsed.xp_desc_next, 2);
}

#[test]
fn nxsb_rejects_bad_magic() {
    let mut bytes = build_minimal_nxsb_block();
    bytes[32] ^= 0xFF;
    // Recompute checksum so the magic check, not the checksum, fires
    fletcher::refresh_object_checksum(&mut bytes).unwrap();
    assert!(matches!(
        NxSuperblock::parse(&bytes),
        Err(ApfsError::BadContainerMagic(_))
    ));
}

#[test]
fn nxsb_round_trip_byte_identical() {
    let bytes = build_minimal_nxsb_block();
    let parsed = NxSuperblock::parse(&bytes).unwrap();
    let mut out = vec![0u8; bytes.len()];
    parsed.write_to_block(&mut out).unwrap();
    assert_eq!(out, bytes);
}
