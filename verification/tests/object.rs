use arfw::apfs::device::MemoryDevice;
use arfw::apfs::error::ApfsError;
use arfw::apfs::fletcher;
use arfw::apfs::object::{
    read_block, read_block_unchecked, read_block_verified, ObjectHeader, OBJECT_TYPE_BTREE,
    OBJECT_TYPE_BTREE_NODE, OBJECT_TYPE_OMAP,
};

fn synth_block(block_size: usize, oid: u64, xid: u64, ty: u16) -> Vec<u8> {
    let mut block = vec![0u8; block_size];
    let header = ObjectHeader {
        checksum: [0u8; 8],
        oid,
        xid,
        raw_type: ty as u32,
        subtype: 0,
    };
    header.write_into(&mut block[..32]).unwrap();
    fletcher::refresh_object_checksum(&mut block).unwrap();
    block
}

#[test]
fn parse_writeback_roundtrip() {
    let blk = synth_block(512, 42, 7, OBJECT_TYPE_BTREE_NODE);
    let h = ObjectHeader::parse(&blk).unwrap();
    assert_eq!(h.oid, 42);
    assert_eq!(h.xid, 7);
    assert_eq!(h.object_type(), OBJECT_TYPE_BTREE_NODE);

    let mut copy = vec![0u8; 32];
    h.write_into(&mut copy).unwrap();
    assert_eq!(&copy[..32], &blk[..32]);
}

#[test]
fn flags_split_correctly() {
    let h = ObjectHeader {
        checksum: [0; 8],
        oid: 1,
        xid: 1,
        raw_type: 0xABCD_0042,
        subtype: 0,
    };
    assert_eq!(h.object_type(), 0x0042);
    assert_eq!(h.flags(), 0xABCD);
}

#[test]
fn expect_type_errors_correctly() {
    let h = ObjectHeader {
        checksum: [0; 8],
        oid: 0,
        xid: 0,
        raw_type: OBJECT_TYPE_OMAP as u32,
        subtype: 0,
    };
    assert!(h.expect_type(OBJECT_TYPE_OMAP).is_ok());
    assert!(h.expect_type(OBJECT_TYPE_BTREE).is_err());
}

#[test]
fn truncated_buffer_rejected() {
    assert!(ObjectHeader::parse(&[0u8; 16]).is_err());
}

#[test]
fn wrong_type_names_both_types() {
    let h = ObjectHeader {
        checksum: [0; 8],
        oid: 0,
        xid: 0,
        raw_type: OBJECT_TYPE_OMAP as u32,
        subtype: 0,
    };
    assert!(matches!(
        h.expect_type(OBJECT_TYPE_BTREE),
        Err(ApfsError::BadObjectType { expected: 2, actual: 11 })
    ));
}

#[test]
fn write_into_short_buffer_is_refused() {
    let h = ObjectHeader {
        checksum: [0; 8],
        oid: 0,
        xid: 0,
        raw_type: 0,
        subtype: 0,
    };
    let mut short = vec![9u8; 31];
    assert!(matches!(
        h.write_into(&mut short),
        Err(ApfsError::Truncated { need: 32, have: 31 })
    ));
    assert_eq!(short, vec![9u8; 31]);
}

#[test]
fn blocks_are_read_by_address() {
    let mut disk = vec![0u8; 512];
    disk.extend_from_slice(&synth_block(512, 5, 6, OBJECT_TYPE_OMAP));
    let dev = MemoryDevice::new(disk);
    let b = read_block_verified(&dev, 1, 512).unwrap();
    assert_eq!(ObjectHeader::parse(&b).unwrap().oid, 5);
    assert!(read_block_unchecked(&dev, 0, 512).is_ok());
    assert!(matches!(read_block(&dev, 2, 512), Err(ApfsError::Io(_))));
}

#[test]
fn corrupt_block_is_not_verified() {
    let mut disk = synth_block(512, 5, 6, OBJECT_TYPE_OMAP);
    disk[40] ^= 1;
    let dev = MemoryDevice::new(disk);
    assert!(matches!(read_block_verified(&dev, 0, 512), Err(ApfsError::BadChecksum)));
}
