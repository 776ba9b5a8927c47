use arfw::apfs::extentref::{PhysExtKey, PhysExtVal};

#[test]
fn val_roundtrip() {
    let v = PhysExtVal {
        length: 16,
        kind: 0,
        owning_obj_id: 100,
        refcnt: 3,
    };
    let parsed = PhysExtVal::parse(&v.to_bytes()).unwrap();
    assert_eq!(parsed, v);
}

#[test]
fn inc_dec() {
    let mut v = PhysExtVal {
        length: 1,
        kind: 0,
        owning_obj_id: 1,
        refcnt: 1,
    };
    assert_eq!(v.inc().unwrap(), 2);
    assert_eq!(v.dec().unwrap(), 1);
    assert_eq!(v.dec().unwrap(), 0);
    assert!(v.dec().is_err());
}

#[test]
fn key_kind_strip() {
    let k = PhysExtKey { paddr: 0x12345 };
    let parsed = PhysExtKey::parse(&k.to_bytes(8)).unwrap();
    assert_eq!(parsed.paddr, 0x12345);
}

#[test]
fn val_packs_length_and_kind() {
    let v = PhysExtVal {
        length: 0x0FFF_FFFF_FFFF_FFFF,
        kind: 0x0F,
        owning_obj_id: 1,
        refcnt: 0,
    };
    let parsed = PhysExtVal::parse(&v.to_bytes()).unwrap();
    assert_eq!(parsed.length, 0x0FFF_FFFF_FFFF_FFFF);
    assert_eq!(parsed.kind, 0x0F);
}

#[test]
fn the_largest_count_does_not_grow() {
    let mut v = PhysExtVal {
        length: 1,
        kind: 0,
        owning_obj_id: 1,
        refcnt: i32::MAX,
    };
    assert!(v.inc().is_err());
    assert_eq!(v.refcnt, i32::MAX);
}
