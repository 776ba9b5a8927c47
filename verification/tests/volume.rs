use arfw::apfs::btree::{flags, BTreeInfo, BTNODE_FIXED_PREFIX, BTREE_INFO_SIZE};
use arfw::apfs::catalog::{
    build_inode_value, cmp_catalog_keys, encode_drec_hashed_key, encode_obj_id_and_type, DrecVal,
    FileExtentVal, InodeVal, JDstream,
};
use arfw::apfs::checkpoint::resolve_ephemeral;
use arfw::apfs::device::{MemoryDevice, ReadAt, WriteAt};
use arfw::apfs::error::{ApfsError, IoError};
use arfw::apfs::fletcher;
use arfw::apfs::hash::drec_name_hash;
use arfw::apfs::object::{
    ObjectHeader, OBJECT_TYPE_BTREE, OBJECT_TYPE_BTREE_NODE, OBJECT_TYPE_CHECKPOINT_MAP,
    OBJECT_TYPE_FS, OBJECT_TYPE_NX_SUPERBLOCK, OBJECT_TYPE_OMAP, OBJECT_TYPE_SPACEMAN,
    OBJECT_TYPE_SPACEMAN_CIB,
};
use arfw::apfs::omap::{OmapKey, OmapVal};
use arfw::apfs::spaceman::SpaceManager;
use arfw::apfs::superblock::{find_latest_nxsb, read_nxsb, APFS_MAGIC, NX_MAGIC};
use arfw::apfs::verify::verify_image;
use arfw::apfs::volume::clock::stored_nanos;
use arfw::apfs::{ApfsVolume, EntryKind};
use arfw::driver::info::{
    FILE_ATTRIBUTE_DIRECTORY, FILE_ATTRIBUTE_NORMAL, FILE_ATTRIBUTE_READONLY,
    STATUS_MEDIA_WRITE_PROTECTED, STATUS_NOT_A_DIRECTORY, STATUS_OBJECT_NAME_NOT_FOUND,
};
use arfw::driver::{ApfsDriver, ReadWriteMode};
use arfw::disk::DiskReader;

const BS: usize = 4096;
const BLOCKS: usize = 96;
const USED: usize = 48;
const XID: u64 = 10;
const RING: u64 = 1;
const RING_BLOCKS: u32 = 24;
const SPACEMAN_OID: u64 = 1024;
const VOLUME_OID: u64 = 1026;
const CATALOG_OID: u64 = 1028;

fn put(block: &mut [u8], at: usize, bytes: &[u8]) {
    block[at..at + bytes.len()].copy_from_slice(bytes);
}

fn object(oid: u64, kind: u16) -> Vec<u8> {
    let mut block = vec![0u8; BS];
    let header = ObjectHeader {
        checksum: [0; 8],
        oid,
        xid: XID,
        raw_type: kind as u32,
        subtype: 0,
    };
    header.write_into(&mut block[..32]).unwrap();
    block
}

fn seal(mut block: Vec<u8>) -> Vec<u8> {
    fletcher::refresh_object_checksum(&mut block).unwrap();
    block
}

/// A node of a tree with 16-byte keys and values.
fn fixed_root(oid: u64, entries: &[(Vec<u8>, Vec<u8>)]) -> Vec<u8> {
    let mut b = object(oid, OBJECT_TYPE_BTREE);
    let f = flags::ROOT | flags::LEAF | flags::FIXED_KV_SIZE;
    put(&mut b, 32, &f.to_le_bytes());
    put(&mut b, 36, &(entries.len() as u32).to_le_bytes());
    let toc = 64usize;
    put(&mut b, 42, &(toc as u16).to_le_bytes());
    let end = BS - BTREE_INFO_SIZE;
    for (i, (k, v)) in entries.iter().enumerate() {
        put(&mut b, BTNODE_FIXED_PREFIX + toc + 16 * i, k);
        put(&mut b, end - 16 * (i + 1), v);
        put(&mut b, BTNODE_FIXED_PREFIX + 4 * i, &((16 * i) as u16).to_le_bytes());
        put(&mut b, BTNODE_FIXED_PREFIX + 4 * i + 2, &((16 * (i + 1)) as u16).to_le_bytes());
    }
    let free_off = toc + 16 * entries.len();
    let free_len = end - BTNODE_FIXED_PREFIX - free_off - 16 * entries.len();
    put(&mut b, 44, &(free_off as u16).to_le_bytes());
    put(&mut b, 46, &(free_len as u16).to_le_bytes());
    let info = BTreeInfo {
        flags: 0,
        node_size: BS as u32,
        key_size: 16,
        val_size: 16,
        longest_key: 16,
        longest_val: 16,
        key_count: entries.len() as u64,
        node_count: 1,
    };
    info.write_into(&mut b[BS - BTREE_INFO_SIZE..]);
    seal(b)
}

/// A node of a tree with keys and values of any length.
fn var_node(oid: u64, root: bool, leaf: bool, entries: &[(Vec<u8>, Vec<u8>)]) -> Vec<u8> {
    let kind = if root { OBJECT_TYPE_BTREE } else { OBJECT_TYPE_BTREE_NODE };
    let mut b = object(oid, kind);
    let mut f = 0u16;
    if root {
        f |= flags::ROOT;
    }
    if leaf {
        f |= flags::LEAF;
    }
    put(&mut b, 32, &f.to_le_bytes());
    put(&mut b, 34, &(if leaf { 0u16 } else { 1u16 }).to_le_bytes());
    put(&mut b, 36, &(entries.len() as u32).to_le_bytes());
    let toc = 512usize;
    put(&mut b, 42, &(toc as u16).to_le_bytes());
    let end = if root { BS - BTREE_INFO_SIZE } else { BS };
    let mut key_off = 0usize;
    let mut val_top = 0usize;
    for (i, (k, v)) in entries.iter().enumerate() {
        put(&mut b, BTNODE_FIXED_PREFIX + toc + key_off, k);
        val_top += v.len();
        put(&mut b, end - val_top, v);
        let e = BTNODE_FIXED_PREFIX + 8 * i;
        put(&mut b, e, &(key_off as u16).to_le_bytes());
        put(&mut b, e + 2, &(k.len() as u16).to_le_bytes());
        put(&mut b, e + 4, &(val_top as u16).to_le_bytes());
        put(&mut b, e + 6, &(v.len() as u16).to_le_bytes());
        key_off += k.len();
    }
    let free_off = toc + key_off;
    let free_len = end - BTNODE_FIXED_PREFIX - free_off - val_top;
    put(&mut b, 44, &(free_off as u16).to_le_bytes());
    put(&mut b, 46, &(free_len as u16).to_le_bytes());
    if root {
        let info = BTreeInfo {
            flags: 0,
            node_size: BS as u32,
            key_size: 0,
            val_size: 0,
            longest_key: 64,
            longest_val: 256,
            key_count: entries.len() as u64,
            node_count: 3,
        };
        info.write_into(&mut b[BS - BTREE_INFO_SIZE..]);
    }
    seal(b)
}

fn omap_entry(oid: u64, paddr: u64) -> (Vec<u8>, Vec<u8>) {
    (
        OmapKey { oid, xid: 1 }.to_bytes().to_vec(),
        OmapVal { flags: 0, size: BS as u32, paddr }.to_bytes().to_vec(),
    )
}

fn inode(oid: u64, parent: u64, mode: u16, count: i32, size: Option<u64>) -> (Vec<u8>, Vec<u8>) {
    let i = InodeVal {
        parent_id: parent,
        private_id: oid,
        create_time: 1_000_000_000,
        modify_time: 2_000_000_000,
        change_time: 3_000_000_000,
        access_time: 4_000_000_000,
        internal_flags: 0,
        nchildren_or_nlink: count,
        default_protection_class: 0,
        write_generation_counter: 1,
        bsd_flags: 0,
        uid: 501,
        gid: 20,
        mode,
        pad1: 0,
        uncompressed_size: 0,
        dstream_size: None,
    };
    let d = size.map(|size| JDstream {
        size,
        alloced_size: size.div_ceil(BS as u64) * BS as u64,
        default_crypto_id: 0,
        total_bytes_written: size,
        total_bytes_read: 0,
    });
    (encode_obj_id_and_type(oid, 3).to_vec(), build_inode_value(&i, d).unwrap())
}

fn drec(parent: u64, name: &str, oid: u64, kind: u16) -> (Vec<u8>, Vec<u8>) {
    let hash = drec_name_hash(name, false).unwrap();
    let val = DrecVal { file_id: oid, date_added: 5, flags: kind };
    (encode_drec_hashed_key(parent, name, hash).unwrap(), val.to_bytes().to_vec())
}

fn extent(oid: u64, logical: u64, length: u64, block: u64) -> (Vec<u8>, Vec<u8>) {
    let mut k = encode_obj_id_and_type(oid, 8).to_vec();
    k.extend_from_slice(&logical.to_le_bytes());
    (k, FileExtentVal::from_length_and_flags(length, 0, block, 0).to_bytes().to_vec())
}

fn stream_id(oid: u64) -> (Vec<u8>, Vec<u8>) {
    (encode_obj_id_and_type(oid, 6).to_vec(), 1u32.to_le_bytes().to_vec())
}

fn hello() -> Vec<u8> {
    (0..5000u32).map(|i| (i % 251) as u8).collect()
}

/// A container with one volume: `/hello.txt` (5000 bytes), `/sub` with
/// `/sub/inner.bin` (100 bytes), `/empty_dir`. The catalog has two leaves.
fn image() -> Vec<u8> {
    image_with(|_| {})
}

/// The same container, with a change made to the records of its catalog.
fn image_with(change: impl Fn(&mut Vec<(Vec<u8>, Vec<u8>)>)) -> Vec<u8> {
    let mut disk = vec![0u8; BS * BLOCKS];
    let set = |disk: &mut Vec<u8>, p: u64, b: Vec<u8>| put(disk, p as usize * BS, &b);

    let mut nx = object(1, OBJECT_TYPE_NX_SUPERBLOCK);
    put(&mut nx, 32, &NX_MAGIC.to_le_bytes());
    put(&mut nx, 36, &(BS as u32).to_le_bytes());
    put(&mut nx, 40, &(BLOCKS as u64).to_le_bytes());
    put(&mut nx, 88, &2000u64.to_le_bytes());
    put(&mut nx, 96, &(XID + 1).to_le_bytes());
    put(&mut nx, 104, &RING_BLOCKS.to_le_bytes());
    put(&mut nx, 108, &2u32.to_le_bytes());
    put(&mut nx, 112, &RING.to_le_bytes());
    put(&mut nx, 120, &25u64.to_le_bytes());
    put(&mut nx, 128, &2u32.to_le_bytes());
    put(&mut nx, 140, &2u32.to_le_bytes());
    put(&mut nx, 152, &SPACEMAN_OID.to_le_bytes());
    put(&mut nx, 160, &30u64.to_le_bytes());
    put(&mut nx, 180, &1u32.to_le_bytes());
    put(&mut nx, 184, &VOLUME_OID.to_le_bytes());
    let nx = seal(nx);
    set(&mut disk, 0, nx.clone());
    set(&mut disk, RING + 1, nx);

    let mut map = object(2, OBJECT_TYPE_CHECKPOINT_MAP);
    put(&mut map, 36, &1u32.to_le_bytes());
    put(&mut map, 40 + 24, &SPACEMAN_OID.to_le_bytes());
    put(&mut map, 40 + 32, &25u64.to_le_bytes());
    set(&mut disk, RING, seal(map));

    let mut sm = object(SPACEMAN_OID, OBJECT_TYPE_SPACEMAN);
    put(&mut sm, 32, &(BS as u32).to_le_bytes());
    put(&mut sm, 36, &(BLOCKS as u32).to_le_bytes());
    put(&mut sm, 40, &1u32.to_le_bytes());
    put(&mut sm, 48, &(BLOCKS as u64).to_le_bytes());
    put(&mut sm, 56, &1u64.to_le_bytes());
    put(&mut sm, 64, &1u32.to_le_bytes());
    put(&mut sm, 72, &((BLOCKS - USED) as u64).to_le_bytes());
    put(&mut sm, 80, &400u32.to_le_bytes());
    put(&mut sm, 400, &27u64.to_le_bytes());
    set(&mut disk, 25, seal(sm));

    let mut cib = object(27, OBJECT_TYPE_SPACEMAN_CIB);
    put(&mut cib, 36, &1u32.to_le_bytes());
    put(&mut cib, 40, &XID.to_le_bytes());
    put(&mut cib, 56, &(BLOCKS as u32).to_le_bytes());
    put(&mut cib, 60, &((BLOCKS - USED) as u32).to_le_bytes());
    put(&mut cib, 64, &28u64.to_le_bytes());
    set(&mut disk, 27, seal(cib));
    let mut bitmap = vec![0u8; BS];
    for b in bitmap.iter_mut().take(USED / 8) {
        *b = 0xFF;
    }
    set(&mut disk, 28, bitmap);

    let mut omap = object(30, OBJECT_TYPE_OMAP);
    put(&mut omap, 48, &31u64.to_le_bytes());
    set(&mut disk, 30, seal(omap));
    set(&mut disk, 31, fixed_root(31, &[omap_entry(VOLUME_OID, 32)]));

    let mut fs = object(VOLUME_OID, OBJECT_TYPE_FS);
    put(&mut fs, 32, &APFS_MAGIC.to_le_bytes());
    put(&mut fs, 128, &33u64.to_le_bytes());
    put(&mut fs, 136, &CATALOG_OID.to_le_bytes());
    put(&mut fs, 176, &20u64.to_le_bytes());
    put(&mut fs, 184, &2u64.to_le_bytes());
    put(&mut fs, 192, &2u64.to_le_bytes());
    put(&mut fs, 560, b"Test Volume");
    set(&mut disk, 32, seal(fs));

    let mut vol_omap = object(33, OBJECT_TYPE_OMAP);
    put(&mut vol_omap, 48, &34u64.to_le_bytes());
    set(&mut disk, 33, seal(vol_omap));
    set(
        &mut disk,
        34,
        fixed_root(
            34,
            &[
                omap_entry(CATALOG_OID, 35),
                omap_entry(CATALOG_OID + 1, 36),
                omap_entry(CATALOG_OID + 2, 37),
            ],
        ),
    );

    let mut records = vec![
        inode(2, 1, 0o040755, 3, None),
        drec(2, "hello.txt", 16, 8),
        drec(2, "sub", 17, 4),
        drec(2, "empty_dir", 18, 4),
        inode(16, 2, 0o100644, 1, Some(5000)),
        stream_id(16),
        extent(16, 0, 8192, 40),
        inode(17, 2, 0o040755, 1, None),
        drec(17, "inner.bin", 19, 8),
        inode(18, 2, 0o040755, 0, None),
        inode(19, 17, 0o100644, 1, Some(100)),
        stream_id(19),
        extent(19, 0, 4096, 42),
    ];
    change(&mut records);
    records.sort_by(|a, b| cmp_catalog_keys(&a.0, &b.0));
    let (low, high) = records.split_at(5);
    set(&mut disk, 36, var_node(CATALOG_OID + 1, false, true, low));
    set(&mut disk, 37, var_node(CATALOG_OID + 2, false, true, high));
    let children = [
        (low[0].0.clone(), (CATALOG_OID + 1).to_le_bytes().to_vec()),
        (high[0].0.clone(), (CATALOG_OID + 2).to_le_bytes().to_vec()),
    ];
    set(&mut disk, 35, var_node(CATALOG_OID, true, false, &children));

    put(&mut disk, 40 * BS, &hello());
    put(&mut disk, 42 * BS, &[0x5A; 100]);
    disk
}

fn open(data: Vec<u8>) -> ApfsVolume<MemoryDevice> {
    ApfsVolume::open(MemoryDevice::new(data)).unwrap()
}

/// Mount what a volume has left on its device.
fn reopen(vol: ApfsVolume<MemoryDevice>) -> ApfsVolume<MemoryDevice> {
    open(vol.dev.data)
}

fn verify(vol: &ApfsVolume<MemoryDevice>) {
    let report = verify_image(&vol.dev).unwrap();
    assert!(report.volumes >= 1);
    assert!(report.btree_nodes_visited > 0);
}

fn paths(vol: &ApfsVolume<MemoryDevice>) -> Vec<String> {
    vol.walk().unwrap().into_iter().map(|e| e.path).collect()
}

#[test]
fn fixture_opens_and_has_valid_nxsb() {
    let dev = MemoryDevice::new(image());
    let nxsb = read_nxsb(&dev).unwrap();
    assert_eq!(nxsb.magic, NX_MAGIC, "container magic mismatch");
    assert!(nxsb.block_size >= 512 && nxsb.block_size.is_power_of_two());
    assert!(nxsb.fs_oids.iter().any(|&o| o != 0));
}

#[test]
fn spaceman_opens_and_reports_free_blocks() {
    let dev = MemoryDevice::new(image());
    let nxsb = read_nxsb(&dev).unwrap();
    let nxsb = find_latest_nxsb(&dev, &nxsb).unwrap();
    let sm_paddr = resolve_ephemeral(&dev, &nxsb, nxsb.spaceman_oid).unwrap();
    let sm = SpaceManager::open(&dev, sm_paddr, nxsb.block_size).unwrap();
    assert!(sm.spaceman.main_block_count() > 0);
    assert!(sm.spaceman.main_free_count() > 0);
    assert!(sm.spaceman.main_free_count() < sm.spaceman.main_block_count());
}

#[test]
fn volume_info_reports_container_space_from_spaceman() {
    let vol = open(image());
    let info = vol.volume_info();
    assert!(info.total_bytes > 0);
    assert!(info.free_bytes > 0);
    assert!(info.free_bytes < info.total_bytes);
    assert_eq!(info.used_bytes, info.total_bytes - info.free_bytes);
    assert_eq!(info.name, "Test Volume");
    assert_eq!(info.total_bytes, (BLOCKS * BS) as u64);
    assert_eq!(info.num_files, 2);
}

#[test]
fn spaceman_alloc_block_flips_bitmap() {
    let dev = MemoryDevice::new(image());
    let nxsb = read_nxsb(&dev).unwrap();
    let nxsb = find_latest_nxsb(&dev, &nxsb).unwrap();
    let sm_paddr = resolve_ephemeral(&dev, &nxsb, nxsb.spaceman_oid).unwrap();
    let mut sm = SpaceManager::open(&dev, sm_paddr, nxsb.block_size).unwrap();

    let initial_free = sm.spaceman.main_free_count();
    let p = sm.alloc_block().unwrap();
    assert_eq!(sm.is_block_used(p), Some(true));
    assert_eq!(sm.spaceman.main_free_count(), initial_free - 1);
    assert!(!sm.dirty_bitmaps().is_empty());
    assert!(p > 0 && p < sm.spaceman.main_block_count());

    let p2 = sm.alloc_block().unwrap();
    assert_ne!(p, p2);
    assert_eq!(sm.spaceman.main_free_count(), initial_free - 2);
}

#[test]
fn spaceman_pristine_image_still_validates() {
    let dev = MemoryDevice::new(image());
    let nxsb = read_nxsb(&dev).unwrap();
    let nxsb = find_latest_nxsb(&dev, &nxsb).unwrap();
    let sm_paddr = resolve_ephemeral(&dev, &nxsb, nxsb.spaceman_oid).unwrap();
    let _sm = SpaceManager::open(&dev, sm_paddr, nxsb.block_size).unwrap();
    verify_image(&dev).unwrap();
}

#[test]
fn verify_pristine_fixture() {
    let report = verify_image(&MemoryDevice::new(image())).unwrap();
    assert!(report.volumes >= 1);
    assert!(report.btree_nodes_visited > 0);
    assert!(report.max_xid > 0);
}

#[test]
fn verify_writable_clone_matches() {
    let copy = image().clone();
    let report = verify_image(&MemoryDevice::new(copy)).unwrap();
    assert!(report.volumes >= 1);
    assert!(report.btree_nodes_visited > 0);
}

#[test]
fn verify_finds_a_damaged_node() {
    let mut data = image();
    data[37 * BS + 2000] ^= 1;
    assert!(matches!(
        verify_image(&MemoryDevice::new(data)),
        Err(ApfsError::BadChecksum)
    ));
}

#[test]
fn the_volume_is_walked_and_read() {
    let vol = open(image());
    let all = paths(&vol);
    assert_eq!(all.len(), 4);
    for p in ["/hello.txt", "/sub", "/sub/inner.bin", "/empty_dir"] {
        assert!(all.iter().any(|x| x == p), "{p} is missing");
    }
    assert_eq!(vol.read_file("/hello.txt").unwrap(), hello());
    assert_eq!(vol.read_file("/sub/inner.bin").unwrap(), vec![0x5A; 100]);
    assert_eq!(vol.read_file("/sub//inner.bin/").unwrap(), vec![0x5A; 100]);
    let stat = vol.stat("/hello.txt").unwrap();
    assert_eq!((stat.oid, stat.size, stat.nlink, stat.uid), (16, 5000, 1, 501));
    assert_eq!(stat.kind, EntryKind::File);
    assert_eq!(vol.path_exists("/sub").unwrap(), true);
    assert_eq!(vol.path_exists("/nowhere").unwrap(), false);
    let names: Vec<String> =
        vol.list_directory("/sub").unwrap().into_iter().map(|e| e.name).collect();
    assert_eq!(names, vec!["inner.bin".to_string()]);
    assert!(matches!(vol.list_directory("/hello.txt"), Err(ApfsError::NotADirectory(_))));
    assert!(matches!(vol.read_file("/nope"), Err(ApfsError::NotFound(_))));
    assert_eq!(vol.get_file_extents("/hello.txt").unwrap(), (vec![(0, 40 * 4096, 8192)], 5000));
    let mut f = vol.open_file("/hello.txt").unwrap();
    let mut buf = [0u8; 3];
    assert_eq!(f.read(&mut buf).unwrap(), 3);
    assert_eq!(buf, [0, 1, 2]);
}

#[test]
fn what_is_no_container_is_not_mounted() {
    let err = ApfsVolume::open(MemoryDevice::new(vec![0u8; 100])).err().unwrap();
    assert!(matches!(err, ApfsError::Io(_)));
    let mut data = image();
    for p in [0usize, 2] {
        data[p * BS + 32] = b'X';
        let b = seal(data[p * BS..(p + 1) * BS].to_vec());
        put(&mut data, p * BS, &b);
    }
    let err = ApfsVolume::open(MemoryDevice::new(data)).err().unwrap();
    assert!(matches!(err, ApfsError::BadContainerMagic(_)));
}

#[test]
fn create_file_adds_entry_under_root() {
    let mut vol = open(image());
    let oid = vol.create_file("/brand_new.txt").unwrap();
    assert!(oid > 0);
    let vol = reopen(vol);
    let found = vol
        .walk()
        .unwrap()
        .into_iter()
        .any(|e| e.path == "/brand_new.txt" && e.entry.kind == EntryKind::File);
    assert!(found, "/brand_new.txt should appear after create_file");
    verify(&vol);
}

#[test]
fn create_directory_then_file_inside_it() {
    let mut vol = open(image());
    vol.create_directory("/newdir").unwrap();
    vol.create_file("/newdir/inner.txt").unwrap();
    let vol = reopen(vol);
    let walk = vol.walk().unwrap();
    let dir_ok =
        walk.iter().any(|e| e.path == "/newdir" && e.entry.kind == EntryKind::Directory);
    let file_ok = walk
        .iter()
        .any(|e| e.path == "/newdir/inner.txt" && e.entry.kind == EntryKind::File);
    assert!(dir_ok && file_ok, "newdir + inner.txt must both exist");
    verify(&vol);
}

#[test]
fn create_file_rejects_duplicate() {
    let mut vol = open(image());
    vol.create_file("/dupe.txt").unwrap();
    assert!(vol.create_file("/dupe.txt").is_err(), "second create must fail");
}

#[test]
fn a_created_file_has_the_time_it_was_given() {
    let mut vol = open(image());
    let oid = vol.create_file_at("/t", 77).unwrap();
    let stat = vol.stat("/t").unwrap();
    assert_eq!((stat.oid, stat.create_time, stat.modify_time, stat.size), (oid, 77, 77, 0));
    assert_eq!(vol.stat("/").unwrap().nlink, 4);
    assert!(vol.create_file_at("/nowhere/t", 77).is_err());
    assert!(vol.create_file_at("/hello.txt/t", 77).is_err());
}

#[test]
fn write_at_overwrites_existing_bytes_in_place() {
    let mut vol = open(image());
    let original = vol.read_file("/hello.txt").unwrap();
    assert!(original.len() >= 32);

    let payload: [u8; 16] = *b"ARFW_INPLACE_OK!";
    let write_offset: u64 = 8;
    let n = vol.write_at("/hello.txt", write_offset, &payload).unwrap();
    assert_eq!(n, payload.len() as u64);

    // Reopen and re-read; spliced bytes must match payload, surrounding
    // bytes must be untouched
    let vol = reopen(vol);
    let after = vol.read_file("/hello.txt").unwrap();
    assert_eq!(after.len(), original.len(), "size must not change");
    assert_eq!(
        &after[write_offset as usize..write_offset as usize + payload.len()],
        &payload[..],
        "spliced range mismatch"
    );
    assert_eq!(
        &after[..write_offset as usize],
        &original[..write_offset as usize],
        "bytes before the splice were modified"
    );
    assert_eq!(
        &after[write_offset as usize + payload.len()..],
        &original[write_offset as usize + payload.len()..],
        "bytes after the splice were modified"
    );
    verify(&vol);
}

#[test]
fn write_at_rejects_writes_past_eof() {
    let mut vol = open(image());
    assert!(vol.write_at("/hello.txt", 5001, b"oops").is_err(), "write past EOF must fail");
}

#[test]
fn write_at_truncates_to_remaining_size_within_eof() {
    let mut vol = open(image());
    let original = vol.read_file("/hello.txt").unwrap();
    let last_two_offset = 5000 - 2;
    let payload = [0xAAu8; 32];
    let written = vol.write_at("/hello.txt", last_two_offset, &payload).unwrap();
    assert_eq!(written, 2, "write must clip to remaining EOF");

    let vol = reopen(vol);
    let after = vol.read_file("/hello.txt").unwrap();
    assert_eq!(after.len(), original.len(), "size unchanged");
    assert_eq!(&after[last_two_offset as usize..], &[0xAA, 0xAA]);
}

#[test]
fn round_trips_inode_mtime_via_nxsb_rotation() {
    const SENTINEL_MTIME_NS: i64 = 1_700_000_000_000_000_000;
    let mut vol = open(image());
    vol.set_inode_times("/hello.txt", None, Some(SENTINEL_MTIME_NS), None, None).unwrap();
    let vol = reopen(vol);
    let stat = vol.stat("/hello.txt").unwrap();
    assert_eq!(
        stat.modify_time, SENTINEL_MTIME_NS,
        "mtime did not survive a NXSB-rotation commit cycle"
    );
    assert_eq!(stat.create_time, 1_000_000_000);
}

#[test]
fn nxsb_rotation_keeps_image_valid() {
    let mut vol = open(image());
    vol.set_inode_times("/hello.txt", None, Some(1_650_000_000_000_000_000), None, None).unwrap();
    let vol = reopen(vol);
    verify(&vol);
    assert_eq!(vol.nxsb().header.xid, XID + 1);
}

#[test]
fn set_logical_size_shrinks_in_place() {
    let mut vol = open(image());
    vol.set_logical_size("/hello.txt", 2500).unwrap();
    let vol = reopen(vol);
    assert_eq!(vol.stat("/hello.txt").unwrap().size, 2500, "logical size did not persist");
    assert_eq!(vol.read_file("/hello.txt").unwrap(), hello()[..2500].to_vec());
    verify(&vol);
}

#[test]
fn set_logical_size_rejects_grow() {
    let mut vol = open(image());
    assert!(vol.set_logical_size("/hello.txt", 5000 + 4096).is_err(), "grow must be rejected");
}

#[test]
fn set_logical_size_noop_succeeds() {
    let mut vol = open(image());
    vol.set_logical_size("/hello.txt", 5000).unwrap();
}

#[test]
fn unlink_removes_file_and_decrements_parent() {
    let mut vol = open(image());
    let before = vol.stat("/").unwrap().nlink;
    vol.unlink_file("/hello.txt").unwrap();
    let vol = reopen(vol);
    assert!(vol.stat("/hello.txt").is_err(), "stat after unlink should fail");
    assert_eq!(
        vol.stat("/").unwrap().nlink + 1,
        before,
        "parent nchildren did not decrement"
    );
    verify(&vol);
}

#[test]
fn unlink_rejects_directory() {
    let mut vol = open(image());
    assert!(vol.unlink_file("/sub").is_err());
}

#[test]
fn unlink_rejects_missing_path() {
    let mut vol = open(image());
    assert!(vol.unlink_file("/definitely-not-here.txt").is_err());
}

#[test]
fn unlink_directory_removes_empty_dir() {
    let mut vol = open(image());
    vol.unlink_directory("/empty_dir").unwrap();
    let vol = reopen(vol);
    assert!(paths(&vol).iter().all(|p| p != "/empty_dir"), "/empty_dir must be gone");
    verify(&vol);
}

#[test]
fn unlink_directory_rejects_nonempty() {
    let mut vol = open(image());
    assert!(vol.unlink_directory("/sub").is_err(), "rmdir on non-empty dir must fail");
    assert!(vol.unlink_directory("/hello.txt").is_err());
}

#[test]
fn rename_file_within_root() {
    let mut vol = open(image());
    vol.rename_file("/hello.txt", "/hello_renamed.txt", false).unwrap();
    let vol = reopen(vol);
    let all = paths(&vol);
    assert!(all.iter().any(|p| p == "/hello_renamed.txt"));
    assert!(all.iter().all(|p| p != "/hello.txt"));
    let data = vol.read_file("/hello_renamed.txt").unwrap();
    assert!(!data.is_empty());
    assert_eq!(data, hello());
    verify(&vol);
}

#[test]
fn rename_file_cross_directory() {
    let mut vol = open(image());
    vol.rename_file("/hello.txt", "/sub/hello_moved.txt", false).unwrap();
    let vol = reopen(vol);
    let all = paths(&vol);
    assert!(all.iter().any(|p| p == "/sub/hello_moved.txt"));
    assert!(all.iter().all(|p| p != "/hello.txt"));
    assert_eq!(vol.stat("/").unwrap().nlink, 2);
    assert_eq!(vol.stat("/sub").unwrap().nlink, 2);
    verify(&vol);
}

#[test]
fn a_renamed_directory_keeps_what_is_in_it() {
    let mut vol = open(image());
    vol.rename_file("/sub", "/empty_dir/moved", false).unwrap();
    let vol = reopen(vol);
    assert_eq!(vol.path_exists("/sub/inner.bin").unwrap(), false);
    assert_eq!(vol.read_file("/empty_dir/moved/inner.bin").unwrap(), vec![0x5A; 100]);
    assert_eq!(vol.stat("/empty_dir/moved").unwrap().oid, 17);
    assert_eq!(vol.read_file("/hello.txt").unwrap(), hello());
    verify(&vol);
}

#[test]
fn rename_replaces_only_when_asked() {
    let mut vol = open(image());
    vol.create_file("/other").unwrap();
    assert!(vol.rename_file("/hello.txt", "/other", false).is_err());
    vol.rename_file("/hello.txt", "/other", true).unwrap();
    let vol = reopen(vol);
    assert_eq!(vol.read_file("/other").unwrap(), hello());
    assert!(paths(&vol).iter().all(|p| p != "/hello.txt"));
    verify(&vol);
}

#[test]
fn append_data_extends_file() {
    let mut vol = open(image());
    let original = vol.read_file("/hello.txt").unwrap();
    let appended: &[u8] = b"\nAPPENDED_BYTES_FROM_TEST";
    let n = vol.append_data("/hello.txt", appended).unwrap();
    assert_eq!(n, appended.len() as u64);
    let vol = reopen(vol);
    let after = vol.read_file("/hello.txt").unwrap();
    assert_eq!(after.len(), original.len() + appended.len());
    assert_eq!(&after[..original.len()], &original[..]);
    assert_eq!(&after[original.len()..], appended);
    verify(&vol);
}

#[test]
fn append_data_takes_new_blocks() {
    let mut vol = open(image());
    let more: Vec<u8> = (0..9000u32).map(|i| (i % 13) as u8).collect();
    vol.append_data("/sub/inner.bin", &more).unwrap();
    vol.append_data("/sub/inner.bin", &more).unwrap();
    let vol = reopen(vol);
    let mut want = vec![0x5A; 100];
    want.extend_from_slice(&more);
    want.extend_from_slice(&more);
    assert_eq!(vol.read_file("/sub/inner.bin").unwrap(), want);
    verify(&vol);
}

#[test]
fn append_to_a_new_file() {
    let mut vol = open(image());
    vol.create_file("/fresh").unwrap();
    vol.append_data("/fresh", b"first words").unwrap();
    let vol = reopen(vol);
    assert_eq!(vol.read_file("/fresh").unwrap(), b"first words".to_vec());
    verify(&vol);
}

#[test]
fn grow_file_zero_fills_tail() {
    let mut vol = open(image());
    let original = vol.read_file("/hello.txt").unwrap();
    let new_size = (original.len() + 8192) as u64;
    vol.grow_file("/hello.txt", new_size).unwrap();
    let vol = reopen(vol);
    let after = vol.read_file("/hello.txt").unwrap();
    assert_eq!(after.len() as u64, new_size);
    assert_eq!(&after[..original.len()], &original[..]);
    assert!(after[original.len()..].iter().all(|&b| b == 0));
    verify(&vol);
}

#[test]
fn many_changes_survive_a_remount() {
    let mut vol = open(image());
    let dir = vol.create_directory_at("/New Folder", 7_000).unwrap();
    let file = vol.create_file_at("/New Folder/notes.txt", 8_000).unwrap();
    assert_ne!(dir, file);
    vol.append_data_at("/New Folder/notes.txt", &[7u8; 6000], 9_000).unwrap();
    vol.grow_file_at("/New Folder/notes.txt", 10_000, 9_500).unwrap();
    vol.write_at("/New Folder/notes.txt", 5_990, &[8u8; 20]).unwrap();
    vol.rename_file_at("/hello.txt", "/New Folder/hello.txt", false, 9_900).unwrap();
    vol.set_inode_times_by_oid(19, None, Some(123), None, None).unwrap();
    vol.set_logical_size("/New Folder/hello.txt", 10).unwrap();
    vol.unlink_directory("/empty_dir").unwrap();
    let mut want = vec![7u8; 5990];
    want.extend_from_slice(&[8u8; 20]);
    want.resize(10_000, 0);
    let before = paths(&vol);
    let vol = reopen(vol);
    verify(&vol);
    assert_eq!(paths(&vol), before);
    assert_eq!(vol.read_file("/New Folder/notes.txt").unwrap(), want);
    let mut out = vec![1u8];
    assert_eq!(vol.read_file_to("/New Folder/hello.txt", &mut out).unwrap(), 10);
    assert_eq!(out[1..], hello()[..10]);
    assert_eq!(vol.stat("/sub/inner.bin").unwrap().modify_time, 123);
    assert_eq!(vol.read_file("/sub/inner.bin").unwrap(), vec![0x5A; 100]);
    assert_eq!(vol.stat("/New Folder").unwrap().oid, dir);
    assert_eq!(vol.stat("/New Folder").unwrap().nlink, 2);
    assert_eq!(vol.path_exists("/empty_dir").unwrap(), false);
    assert_eq!(vol.path_exists("/hello.txt").unwrap(), false);
}

#[test]
fn bytes_are_written_through_extents() {
    let mut vol = open(image());
    let (stat, map, size) = vol.stat_and_extents("/hello.txt").unwrap();
    assert_eq!((stat.oid, size), (16, 5000));
    assert_eq!(vol.write_at_extents(&map, 4090, b"across two blocks").unwrap(), 17);
    let vol = reopen(vol);
    let mut want = hello();
    want[4090..4107].copy_from_slice(b"across two blocks");
    assert_eq!(vol.read_file("/hello.txt").unwrap(), want);
    verify(&vol);
}

#[test]
fn a_ring_without_its_checkpoint_map_is_not_mounted() {
    let mut vol = open(image());
    let commits = RING_BLOCKS - 2;
    for i in 0..commits {
        vol.set_inode_times("/hello.txt", None, Some(i as i64), None, None).unwrap();
    }
    let data = vol.dev.data.clone();
    assert_eq!(open(data).stat("/hello.txt").unwrap().modify_time, commits as i64 - 1);
    vol.set_inode_times("/hello.txt", None, Some(1), None, None).unwrap();
    let err = ApfsVolume::open(vol.dev).err().unwrap();
    assert!(matches!(err, ApfsError::NotFound(_)));
}

#[test]
fn a_commit_may_overwrite_an_old_checkpoint_map() {
    let mut data = image();
    // An older map stands where the next superblock goes, and leads elsewhere
    let mut map = object(2, OBJECT_TYPE_CHECKPOINT_MAP);
    let header = ObjectHeader {
        checksum: [0; 8],
        oid: 2,
        xid: XID - 2,
        raw_type: OBJECT_TYPE_CHECKPOINT_MAP as u32,
        subtype: 0,
    };
    header.write_into(&mut map[..32]).unwrap();
    put(&mut map, 36, &1u32.to_le_bytes());
    put(&mut map, 40 + 24, &SPACEMAN_OID.to_le_bytes());
    put(&mut map, 40 + 32, &26u64.to_le_bytes());
    put(&mut data, (RING as usize + 2) * BS, &seal(map));
    let mut vol = open(data);
    assert_eq!(vol.read_file("/hello.txt").unwrap(), hello());
    vol.create_file_at("/new.txt", 5).unwrap();
    let vol = reopen(vol);
    assert_eq!(vol.stat("/new.txt").unwrap().create_time, 5);
    assert_eq!(vol.read_file("/hello.txt").unwrap(), hello());
    verify(&vol);
}

fn serve(mode: ReadWriteMode) -> ApfsDriver<MemoryDevice> {
    ApfsDriver::with_mode(MemoryDevice::new(image()), mode, Some("1")).unwrap()
}

#[test]
fn read_write_mode_has_to_be_acknowledged() {
    let err = ApfsDriver::with_mode(
        MemoryDevice::new(image()),
        ReadWriteMode::ReadWriteUnsafe,
        Some("yes"),
    )
    .err()
    .unwrap();
    assert_eq!(
        err.message(),
        "APFS error: ReadWriteUnsafe mode requires ARFW_I_UNDERSTAND_DATA_LOSS=1 env var"
    );
    assert!(ApfsDriver::with_mode(
        MemoryDevice::new(image()),
        ReadWriteMode::ReadWriteUnsafe,
        None
    )
    .is_err());
    let d = ApfsDriver::new(MemoryDevice::new(image())).unwrap();
    assert_eq!(d.mode(), ReadWriteMode::ReadOnly);
    let err = ApfsDriver::new(MemoryDevice::new(vec![0u8; 8192])).err().unwrap();
    assert!(err.message().starts_with("APFS error: "));
}

#[test]
fn a_served_file_is_opened_and_read() {
    let mut d = serve(ReadWriteMode::ReadOnly);
    assert_eq!(d.get_security_by_name("\\").unwrap(), FILE_ATTRIBUTE_DIRECTORY);
    assert_eq!(d.get_security_by_name("\\hello.txt").unwrap(), FILE_ATTRIBUTE_READONLY);
    assert_eq!(d.get_security_by_name("\\nope"), Err(STATUS_OBJECT_NAME_NOT_FOUND));
    let (ctx, info) = d.open("\\hello.txt").unwrap();
    assert_eq!(ctx.path, "/hello.txt");
    assert_eq!((info.file_size, info.allocation_size, info.index_number), (5000, 8192, 16));
    assert_eq!(info.creation_time, 116444736000000000 + 10_000_000);
    assert_eq!(info.last_write_time, 116444736000000000 + 20_000_000);
    let mut buf = [0u8; 10];
    assert_eq!(d.read(&ctx, &mut buf, 4996).unwrap(), 4);
    assert_eq!(&buf[..4], &hello()[4996..]);
    assert_eq!(d.read(&ctx, &mut buf, 5000).unwrap(), 0);
    assert_eq!(d.get_volume_info().name, "Test Volume");
}

#[test]
fn a_listing_fills_the_cache() {
    let mut d = serve(ReadWriteMode::ReadOnly);
    let (root, _) = d.open("\\").unwrap();
    let lines = d.read_directory(&root).unwrap();
    assert_eq!(lines[0].name, ".");
    assert_eq!(lines[1].name, "..");
    assert_eq!(lines[0].info.file_attributes, FILE_ATTRIBUTE_DIRECTORY);
    let hello_line = lines.iter().find(|l| l.name == "hello.txt").unwrap();
    assert_eq!(hello_line.info.file_size, 5000);
    assert_eq!(lines.len(), 5);
    // What the listing told is enough for attributes; opening looks up extents
    let mut broken = d;
    for b in broken.volume.dev.data[35 * BS..36 * BS].iter_mut() {
        *b = 0;
    }
    assert_eq!(broken.get_security_by_name("\\hello.txt").unwrap(), FILE_ATTRIBUTE_READONLY);
    assert_eq!(broken.open("\\hello.txt").err(), Some(STATUS_OBJECT_NAME_NOT_FOUND));
    assert!(broken.open("\\sub").is_ok());
    let (ctx, _) = broken.open("\\sub").unwrap();
    assert_eq!(broken.read_directory(&ctx).err(), Some(STATUS_NOT_A_DIRECTORY));
    assert_eq!(broken.get_file_info(&ctx).unwrap().index_number, 17);
}

#[test]
fn the_cache_gives_up_what_was_not_used_for_longest() {
    let mut d = serve(ReadWriteMode::ReadWriteUnsafe);
    d.get_security_by_name("\\hello.txt").unwrap();
    d.get_security_by_name("\\sub").unwrap();
    // Opening again finds the cached paths even when the catalog is gone
    for b in d.volume.dev.data[35 * BS..36 * BS].iter_mut() {
        *b = 0;
    }
    let (ctx, _) = d.open("\\hello.txt").unwrap();
    // A deleted path is forgotten even where the deletion fails
    d.cleanup(&ctx, 1);
    assert!(d.open("\\hello.txt").is_err());
    assert!(d.open("\\sub").is_ok());
}

#[test]
fn read_only_refuses_every_change() {
    let mut d = serve(ReadWriteMode::ReadOnly);
    let (ctx, _) = d.open("\\hello.txt").unwrap();
    let before = d.volume.dev.data.clone();
    let refused = Some(STATUS_MEDIA_WRITE_PROTECTED);
    assert_eq!(d.write(&ctx, b"x", 0, false, false).err(), refused);
    assert_eq!(d.set_file_size(&ctx, 1).err(), refused);
    assert_eq!(d.overwrite(&ctx, 1).err(), refused);
    assert_eq!(d.set_basic_info(&ctx, 0, 0, 0, 0).err(), refused);
    assert_eq!(d.set_delete(&ctx, true).err(), refused);
    assert_eq!(d.rename("\\hello.txt", "\\x", false).err(), refused);
    assert_eq!(d.create("\\x", 0).err(), refused);
    d.cleanup(&ctx, 1);
    assert!(d.volume.dev.data == before);
}

#[test]
fn served_writes_stay_inside_or_extend() {
    let mut d = serve(ReadWriteMode::ReadWriteUnsafe);
    let (ctx, info) = d.open("\\hello.txt").unwrap();
    assert_eq!(info.file_attributes, FILE_ATTRIBUTE_NORMAL);
    assert_eq!(d.write(&ctx, b"", 0, false, false).unwrap().0, 0);
    assert_eq!(d.write(&ctx, b"abc", 10, false, false).unwrap().0, 3);
    assert_eq!(d.write(&ctx, b"wxyz", 4998, false, true).unwrap().0, 2);
    assert_eq!(d.write(&ctx, b"wxyz", 6000, false, true).unwrap().0, 0);
    let (n, info) = d.write(&ctx, b"tail", 4998, false, false).unwrap();
    assert_eq!((n, info.file_size), (4, 5002));
    let (n, info) = d.write(&ctx, b"++", 0, true, false).unwrap();
    assert_eq!((n, info.file_size), (2, 5004));
    let data = d.volume.read_file("/hello.txt").unwrap();
    assert_eq!(&data[10..13], b"abc");
    assert_eq!(&data[4998..], b"tail++");
    verify(&d.volume);
}

#[test]
fn served_files_are_resized_renamed_and_deleted() {
    let mut d = serve(ReadWriteMode::ReadWriteUnsafe);
    let (ctx, _) = d.open("\\hello.txt").unwrap();
    assert_eq!(d.set_file_size(&ctx, 5000).unwrap().file_size, 5000);
    assert_eq!(d.set_file_size(&ctx, 100).unwrap().file_size, 100);
    assert_eq!(d.overwrite(&ctx, 6000).unwrap().file_size, 6000);
    let info = d.set_basic_info(&ctx, 0, 0, 116444736000000007, 0).unwrap().unwrap();
    assert_eq!(info.last_write_time, 116444736000000007);
    assert_eq!(info.creation_time, 116444736000000000 + 10_000_000);
    d.rename("\\hello.txt", "\\sub\\moved", false).unwrap();
    assert!(d.open("\\hello.txt").is_err());
    let (moved, _) = d.open("\\sub\\moved").unwrap();
    d.set_delete(&moved, true).unwrap();
    d.set_delete(&moved, false).unwrap();
    d.cleanup(&moved, 1);
    assert!(d.open("\\sub\\moved").is_err());
    let (dir, info) = d.create("\\made", 1).unwrap();
    assert_eq!(info.file_attributes, FILE_ATTRIBUTE_DIRECTORY);
    let (file, info) = d.create("\\made\\file", 0).unwrap();
    assert_eq!((info.file_attributes, info.file_size), (FILE_ATTRIBUTE_NORMAL, 0));
    d.cleanup(&file, 0);
    assert!(d.open("\\made\\file").is_ok());
    d.cleanup(&file, 1);
    d.cleanup(&dir, 1);
    assert!(d.open("\\made").is_err());
    verify(&d.volume);
}

#[test]
fn a_partition_is_mounted_through_its_disk() {
    let mut disk = vec![0xEEu8; 1536];
    disk.extend_from_slice(&image());
    disk.extend_from_slice(&[0xEE; 100]);
    let len = disk.len();
    let reader =
        DiskReader::with_offset(MemoryDevice::new(disk), 1536, "\\\\.\\PhysicalDrive1".to_string());
    assert_eq!(reader.partition_offset(), 1536);
    assert_eq!(reader.device_path(), "\\\\.\\PhysicalDrive1");
    assert_eq!(reader.size(), len as u64);
    assert_eq!(reader.read_apfs_container_size().unwrap(), (BLOCKS * BS) as u64);
    // The raw search looks at keys with their values right behind
    assert_eq!(
        reader.read_apfs_volume_space().unwrap_err().message(),
        "APFS error: Volume OID not found in object map"
    );
    let mut buf = [0u8; 4];
    assert_eq!(reader.read_block(40, &mut buf).unwrap(), 4);
    assert_eq!(buf, [0, 1, 2, 3]);
    assert_eq!(reader.read_at_absolute(len as u64 - 2, &mut buf).unwrap(), 2);
    assert_eq!(reader.read_at_absolute(len as u64, &mut buf).unwrap(), 0);
    let mut vol = ApfsVolume::open(reader).unwrap();
    assert_eq!(vol.read_file("/hello.txt").unwrap(), hello());
    vol.write_at("/hello.txt", 0, b"new").unwrap();
    assert_eq!(&vol.read_file("/hello.txt").unwrap()[..4], &[b'n', b'e', b'w', 3]);
    assert_eq!(&vol.dev.dev.data[..1536], &[0xEE; 1536]);
}

#[test]
fn times_before_the_epoch_are_stored_as_zero() {
    assert_eq!(stored_nanos(None), 0);
    assert_eq!(stored_nanos(Some(1_700_000_000_000_000_001)), 1_700_000_000_000_000_001);
    assert_eq!(stored_nanos(Some(1 << 64 | 5)), 5);
}

#[test]
fn a_new_file_has_the_time_of_the_clock() {
    let mut vol = open(image());
    vol.create_file("/now.txt").unwrap();
    assert!(vol.stat("/now.txt").unwrap().create_time > 1_500_000_000_000_000_000);
}

/// `/hello.txt` with its data stream under an id of its own.
fn cloned_image() -> Vec<u8> {
    image_with(|records| {
        records.retain(|(k, _)| *k != stream_id(16).0 && *k != extent(16, 0, 0, 0).0);
        let i = records.iter().position(|(k, _)| *k == inode(16, 2, 0, 0, None).0).unwrap();
        records[i].1[8..16].copy_from_slice(&15u64.to_le_bytes());
        records.push(stream_id(15));
        records.push(extent(15, 0, 8192, 40));
    })
}

#[test]
fn a_file_with_its_own_stream_id_grows() {
    let mut vol = open(cloned_image());
    assert_eq!(vol.read_file("/hello.txt").unwrap(), hello());
    assert_eq!(vol.append_data("/hello.txt", &[7u8; 6000]).unwrap(), 6000);
    let mut want = hello();
    want.extend_from_slice(&[7u8; 6000]);
    assert_eq!(vol.read_file("/hello.txt").unwrap(), want);
    vol.grow_file("/hello.txt", 20_000).unwrap();
    want.resize(20_000, 0);
    let vol = reopen(vol);
    assert_eq!(vol.read_file("/hello.txt").unwrap(), want);
    assert_eq!(vol.stat("/hello.txt").unwrap().size, 20_000);
    verify(&vol);
}

#[test]
fn a_file_without_its_last_extent_grows() {
    let mut vol = open(image_with(|records| {
        let i = records.iter().position(|(k, _)| *k == extent(16, 0, 0, 0).0).unwrap();
        records[i] = extent(16, 0, 4096, 40);
    }));
    assert_eq!(vol.read_file("/hello.txt").unwrap(), &hello()[..4096]);
    assert_eq!(vol.append_data("/hello.txt", b"tail").unwrap(), 4);
    let mut want = hello()[..4096].to_vec();
    want.resize(5000, 0);
    want.extend_from_slice(b"tail");
    assert_eq!(reopen(vol).read_file("/hello.txt").unwrap(), want);
}

#[test]
fn a_file_is_truncated_and_written_anew() {
    let mut vol = open(image());
    vol.set_logical_size("/hello.txt", 0).unwrap();
    assert_eq!(vol.append_data("/hello.txt", &[9u8; 10_000]).unwrap(), 10_000);
    assert_eq!(vol.read_file("/hello.txt").unwrap(), vec![9u8; 10_000]);
    vol.set_logical_size("/hello.txt", 100).unwrap();
    vol.grow_file("/hello.txt", 9000).unwrap();
    let mut want = vec![9u8; 100];
    want.resize(9000, 0);
    assert_eq!(vol.read_file("/hello.txt").unwrap(), want);
    vol.set_logical_size("/hello.txt", 50).unwrap();
    assert_eq!(vol.append_data("/hello.txt", b"again").unwrap(), 5);
    want.truncate(50);
    want.extend_from_slice(b"again");
    let vol = reopen(vol);
    assert_eq!(vol.read_file("/hello.txt").unwrap(), want);
    assert_eq!(vol.read_file("/sub/inner.bin").unwrap(), vec![0x5A; 100]);
    verify(&vol);
}

/// A device whose requests fail once a number of them was served.
struct Failing {
    inner: MemoryDevice,
    left: std::cell::Cell<u32>,
}

impl Failing {
    fn serve(&self) -> Result<(), IoError> {
        let left = self.left.get();
        if left == 0 {
            return Err(IoError::Other(5));
        }
        self.left.set(left - 1);
        Ok(())
    }
}

impl ReadAt for Failing {
    fn size(&self) -> u64 {
        self.inner.size()
    }

    fn read_at(&self, offset: u64, count: usize) -> Result<Vec<u8>, IoError> {
        self.serve()?;
        self.inner.read_at(offset, count)
    }
}

impl WriteAt for Failing {
    fn write_at(&mut self, offset: u64, data: &[u8]) -> Result<(), IoError> {
        self.serve()?;
        self.inner.write_at(offset, data)
    }

    fn flush(&mut self) -> Result<(), IoError> {
        self.serve()
    }
}

#[test]
fn a_success_on_a_failing_device_is_a_true_one() {
    let mut done = 0;
    for n in 0..200 {
        let dev = Failing {
            inner: MemoryDevice::new(image()),
            left: std::cell::Cell::new(u32::MAX),
        };
        let mut vol = ApfsVolume::open(dev).unwrap();
        vol.dev.left.set(n);
        match vol.create_file_at("/late.txt", 77) {
            Ok(oid) => {
                let vol = open(vol.dev.inner.data);
                assert_eq!(vol.stat("/late.txt").unwrap().oid, oid);
                assert_eq!(vol.stat("/late.txt").unwrap().create_time, 77);
                verify(&vol);
                done += 1;
            }
            Err(e) => assert!(matches!(e, ApfsError::Io(IoError::Other(5)))),
        }
    }
    assert!(done > 100);
}

#[test]
fn a_walk_gains_what_is_created() {
    let mut vol = open(image());
    vol.create_directory("/fresh").unwrap();
    let before: Vec<String> = vol.walk().unwrap().into_iter().map(|x| x.path).collect();
    let first = vol.create_file("/fresh/new.txt").unwrap();
    let all = vol.walk().unwrap();
    let gained: Vec<String> =
        all.iter().map(|x| x.path.clone()).filter(|p| !before.contains(p)).collect();
    assert_eq!(gained, vec!["/fresh/new.txt".to_string()]);
    assert_eq!(all.len(), before.len() + 1);
    assert!(vol.create_file("/fresh/new.txt").is_err());
    assert_ne!(vol.create_file("/fresh/other.txt").unwrap(), first);
    assert_eq!(vol.stat("/fresh").unwrap().nlink, 2);
}

#[test]
fn a_cloned_file_is_unlinked_with_its_stream() {
    let mut vol = open(cloned_image());
    vol.unlink_file("/hello.txt").unwrap();
    let mut vol = reopen(vol);
    assert!(!vol.path_exists("/hello.txt").unwrap());
    verify(&vol);
    vol.create_file("/hello.txt").unwrap();
    assert_eq!(vol.read_file("/hello.txt").unwrap(), Vec::<u8>::new());
}

#[test]
fn a_walk_loses_what_is_removed() {
    let mut vol = open(image());
    let before = paths(&vol);
    vol.unlink_file("/sub/inner.bin").unwrap();
    let want: Vec<String> =
        before.iter().filter(|p| p.as_str() != "/sub/inner.bin").cloned().collect();
    assert_eq!(paths(&vol), want);
    vol.unlink_directory("/sub").unwrap();
    let want: Vec<String> = want.into_iter().filter(|p| p != "/sub").collect();
    assert_eq!(paths(&vol), want);
    assert_eq!(paths(&reopen(vol)), want);
}

#[test]
fn a_walk_follows_what_is_moved() {
    let mut vol = open(image());
    let mut want: Vec<String> = paths(&vol)
        .into_iter()
        .map(|p| match p.strip_prefix("/sub") {
            Some(rest) => format!("/empty_dir/moved{}", rest),
            None => p,
        })
        .collect();
    vol.rename_file("/sub", "/empty_dir/moved", false).unwrap();
    let mut got = paths(&vol);
    want.sort();
    got.sort();
    assert_eq!(got, want);
}

#[test]
fn a_replacing_rename_takes_the_place_of_what_was_there() {
    let mut vol = open(image());
    vol.rename_file("/hello.txt", "/sub/inner.bin", true).unwrap();
    assert_eq!(vol.read_file("/sub/inner.bin").unwrap(), hello());
    assert_eq!(vol.stat("/sub/inner.bin").unwrap().oid, 16);
    assert_eq!(vol.stat("/").unwrap().nlink, 2);
    assert_eq!(vol.stat("/sub").unwrap().nlink, 1);
    assert!(vol.rename_file("/sub/inner.bin", "/empty_dir", true).is_err());
    let vol = reopen(vol);
    let mut all = paths(&vol);
    all.sort();
    assert_eq!(
        all,
        vec!["/empty_dir".to_string(), "/sub".to_string(), "/sub/inner.bin".to_string()]
    );
    verify(&vol);
}

#[test]
fn a_file_grows_until_the_blocks_are_used_up() {
    let mut vol = open(image());
    let free = (BLOCKS - USED) as u64;
    let most = 8192 + free * BS as u64;
    assert!(vol.grow_file("/hello.txt", most + 1).is_err());
    assert_eq!(vol.stat("/hello.txt").unwrap().size, 5000);
    vol.grow_file("/hello.txt", most).unwrap();
    assert_eq!(vol.stat("/hello.txt").unwrap().size, most);
    assert_eq!(vol.read_file("/hello.txt").unwrap().len() as u64, most);
    assert!(vol.append_data("/hello.txt", b"x").is_err());
}

#[test]
fn a_write_to_the_end_has_no_place_of_its_own() {
    let mut d = serve(ReadWriteMode::ReadWriteUnsafe);
    let (ctx, _) = d.open("\\hello.txt").unwrap();
    let (n, info) = d.write(&ctx, b"++", u64::MAX, true, false).unwrap();
    assert_eq!((n, info.file_size), (2, 5002));
    let (n, info) = d.write(&ctx, b"++", u64::MAX, false, true).unwrap();
    assert_eq!((n, info.file_size), (0, 5002));
}

fn failing() -> Failing {
    Failing {
        inner: MemoryDevice::new(image()),
        left: std::cell::Cell::new(u32::MAX),
    }
}

#[test]
fn a_walk_of_a_failing_device_is_whole_or_fails() {
    let want = paths(&open(image()));
    let vol = ApfsVolume::open(failing()).unwrap();
    let mut done = 0;
    for n in 0..200 {
        vol.dev.left.set(n);
        match vol.walk() {
            Ok(all) => {
                let got: Vec<String> = all.into_iter().map(|e| e.path).collect();
                assert_eq!(got, want);
                done += 1;
            }
            Err(e) => assert!(matches!(e, ApfsError::Io(IoError::Other(5)))),
        }
    }
    assert!(done > 0 && done < 200);
}

#[test]
fn a_failing_device_is_not_passed_by_the_validator() {
    let dev = failing();
    let want = verify_image(&dev).unwrap();
    let mut done = 0;
    for n in 0..200 {
        dev.left.set(n);
        match verify_image(&dev) {
            Ok(report) => {
                assert_eq!(report.volumes, want.volumes);
                assert_eq!(report.btree_nodes_visited, want.btree_nodes_visited);
                done += 1;
            }
            Err(e) => assert!(matches!(e, ApfsError::Io(IoError::Other(5)))),
        }
    }
    assert!(done > 0 && done < 200);
}

#[test]
fn a_listing_of_a_failing_device_is_whole_or_refused() {
    let mut plain = serve(ReadWriteMode::ReadOnly);
    let (root, _) = plain.open("\\").unwrap();
    let want: Vec<String> =
        plain.read_directory(&root).unwrap().into_iter().map(|l| l.name).collect();
    let mut done = 0;
    for n in 0..100 {
        let mut d = ApfsDriver::new(failing()).unwrap();
        let (root, _) = d.open("\\").unwrap();
        d.volume.dev.left.set(n);
        match d.read_directory(&root) {
            Ok(lines) => {
                let got: Vec<String> = lines.into_iter().map(|l| l.name).collect();
                assert_eq!(got, want);
                done += 1;
            }
            Err(e) => assert_eq!(e, STATUS_NOT_A_DIRECTORY),
        }
    }
    assert!(done > 0 && done < 100);
}
