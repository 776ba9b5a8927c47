use arfw::apfs::fletcher::{fletcher64, refresh_object_checksum, verify_object};

#[test]
fn refresh_then_verify_roundtrip() {
    let mut block = vec![0u8; 4096];
    // Plant some non-zero payload
    for (i, b) in block[8..].iter_mut().enumerate() {
        *b = (i as u8).wrapping_mul(31);
    }
    refresh_object_checksum(&mut block).unwrap();
    assert!(verify_object(&block));
}

#[test]
fn corruption_is_detected() {
    let mut block = vec![0u8; 4096];
    refresh_object_checksum(&mut block).unwrap();
    block[100] ^= 1;
    assert!(!verify_object(&block));
}

#[test]
fn empty_block_is_valid_after_refresh() {
    let mut block = vec![0u8; 512];
    refresh_object_checksum(&mut block).unwrap();
    assert!(verify_object(&block));
}

#[test]
fn rejects_misaligned_block() {
    let mut buf = vec![0u8; 13];
    assert!(refresh_object_checksum(&mut buf).is_err());
}

#[test]
fn fletcher_is_deterministic() {
    let payload = b"\x00\x00\x00\x00abcdEFGH-_-_!?!?";
    assert_eq!(fletcher64(payload), fletcher64(payload));
}

#[test]
fn fletcher_of_two_words() {
    // Sums over the words 1, 2 are 3 and 4; the check words are
    // 0xFFFFFFFF - 7 and 0xFFFFFFFF - (3 + 0xFFFFFFF8) reduced.
    let payload = [1u8, 0, 0, 0, 2, 0, 0, 0];
    assert_eq!(fletcher64(&payload), 0x0000_0004_FFFF_FFF8);
}

#[test]
fn every_single_byte_change_is_detected() {
    let mut block = vec![7u8; 64];
    refresh_object_checksum(&mut block).unwrap();
    for i in 8..64 {
        let mut other = block.clone();
        other[i] ^= 0x40;
        assert!(!verify_object(&other));
    }
}

#[test]
fn short_blocks_are_not_verified() {
    assert!(!verify_object(&[0u8; 4]));
    assert!(!verify_object(&[]));
}
