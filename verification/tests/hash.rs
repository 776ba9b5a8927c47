use arfw::apfs::error::ApfsError;
use arfw::apfs::hash::{crc32c, crc32c_update, drec_name_hash};

#[test]
fn crc32c_known_vector() {
    // RFC 3720 Castagnoli reference: crc32c("123456789") = 0xE3069283
    assert_eq!(crc32c(b"123456789"), 0xE306_9283);
}

#[test]
fn crc32c_empty_input_is_zero() {
    assert_eq!(crc32c(b""), 0);
}

#[test]
fn drec_hash_is_deterministic_and_22bit() {
    let h = drec_name_hash("hello.txt", false).unwrap();
    assert_eq!(h, drec_name_hash("hello.txt", false).unwrap());
    assert!(h <= 0x003F_FFFF);
}

#[test]
fn drec_hash_case_insensitive_folds_ascii() {
    let a = drec_name_hash("Hello.Txt", true).unwrap();
    let b = drec_name_hash("hello.txt", true).unwrap();
    assert_eq!(a, b);
}

#[test]
fn drec_hash_rejects_non_ascii() {
    assert!(drec_name_hash("héllo.txt", false).is_err());
}

#[test]
fn non_ascii_name_is_unsupported() {
    assert!(matches!(drec_name_hash("ß", true), Err(ApfsError::Unsupported(_))));
}

#[test]
fn crc_in_pieces() {
    let seed = crc32c_update(0xFFFF_FFFF, b"1234");
    assert_eq!(
        crc32c_update(seed, b"56789"),
        crc32c_update(0xFFFF_FFFF, b"123456789")
    );
}

#[test]
fn case_sensitive_names_differ() {
    let a = drec_name_hash("Hello.Txt", false).unwrap();
    let b = drec_name_hash("hello.txt", false).unwrap();
    assert_ne!(a, b);
}
