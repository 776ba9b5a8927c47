use arfw::apfs::catalog::FileExtentVal;
use arfw::apfs::device::MemoryDevice;
use arfw::apfs::error::IoError;
use arfw::apfs::extents::{
    build_extent_map, read_file_data, translate, write_raw_at, write_through_extent_map,
    ApfsForkReader, SeekTo,
};

fn synthetic_extent(length: u64, phys_block: u64) -> FileExtentVal {
    FileExtentVal::from_length_and_flags(length, 0, phys_block, 0)
}

#[test]
fn map_skips_zero_length_extents() {
    let exts = vec![
        synthetic_extent(0x1000, 10),
        synthetic_extent(0, 999),
        synthetic_extent(0x800, 20),
    ];
    let map = build_extent_map(0x1000, &exts);
    assert_eq!(map.len(), 2);
    assert_eq!(map[0], (0, 10 * 0x1000, 0x1000));
    assert_eq!(map[1], (0x1000, 20 * 0x1000, 0x800));
}

#[test]
fn read_file_data_streams_in_order() {
    // Build a 4 KiB "disk" of one block of 0x55s, one block of 0xAAs
    let block_size = 0x100u32;
    let mut disk = vec![0u8; (block_size as usize) * 4];
    for b in &mut disk[block_size as usize..(2 * block_size as usize)] {
        *b = 0x55;
    }
    for b in &mut disk[2 * block_size as usize..(3 * block_size as usize)] {
        *b = 0xAA;
    }
    let exts = vec![synthetic_extent(block_size as u64, 1), synthetic_extent(block_size as u64, 2)];
    let dev = MemoryDevice::new(disk);
    let mut out = Vec::new();
    let n = read_file_data(&dev, block_size, &exts, 2 * block_size as u64, &mut out).unwrap();
    assert_eq!(n, 2 * block_size as u64);
    assert!(out[..block_size as usize].iter().all(|b| *b == 0x55));
    assert!(out[block_size as usize..].iter().all(|b| *b == 0xAA));
}

#[test]
fn fork_reader_seek_and_read() {
    let block_size = 0x100u32;
    let mut disk = vec![0u8; (block_size as usize) * 4];
    for (i, b) in disk[block_size as usize..(2 * block_size as usize)].iter_mut().enumerate() {
        *b = i as u8;
    }
    let exts = vec![synthetic_extent(block_size as u64, 1)];
    let dev = MemoryDevice::new(disk);
    let mut fork = ApfsForkReader::new(&dev, block_size, exts, block_size as u64);
    fork.seek(SeekTo::Start(16)).unwrap();
    let mut buf = [0u8; 4];
    assert_eq!(fork.read(&mut buf).unwrap(), 4);
    assert_eq!(buf, [16u8, 17, 18, 19]);
}

#[test]
fn fork_reader_seeks_from_everywhere_and_stops_at_the_end() {
    let disk: Vec<u8> = (0..=255u8).collect();
    let dev = MemoryDevice::new(disk);
    let exts = vec![synthetic_extent(32, 2), synthetic_extent(32, 1)];
    let mut fork = ApfsForkReader::new(&dev, 32, exts, 60);
    assert_eq!(fork.seek(SeekTo::End(-4)).unwrap(), 56);
    let mut buf = [0u8; 8];
    assert_eq!(fork.read(&mut buf).unwrap(), 4);
    assert_eq!(&buf[..4], &[56, 57, 58, 59]);
    assert_eq!(fork.read(&mut buf).unwrap(), 0);
    assert_eq!(fork.seek(SeekTo::Current(-30)).unwrap(), 30);
    assert_eq!(fork.read(&mut buf).unwrap(), 8);
    assert_eq!(buf, [94, 95, 32, 33, 34, 35, 36, 37]);
    assert!(fork.seek(SeekTo::Current(-1000)).is_err());
}

#[test]
fn streaming_past_the_device_fails() {
    let dev = MemoryDevice::new(vec![0u8; 64]);
    let mut out = Vec::new();
    let err = read_file_data(&dev, 32, &[synthetic_extent(32, 2)], 32, &mut out).unwrap_err();
    assert_eq!(err.message(), "io: failed to fill whole buffer");
}

#[test]
fn translate_gives_place_and_run() {
    let map = [(0u64, 320u64, 64u64), (64, 32, 32)];
    assert_eq!(translate(&map, 0), Some((320, 64)));
    assert_eq!(translate(&map, 63), Some((383, 1)));
    assert_eq!(translate(&map, 64), Some((32, 32)));
    assert_eq!(translate(&map, 96), None);
}

#[test]
fn a_write_through_the_map_is_read_back() {
    let mut dev = MemoryDevice::new(vec![7u8; 256]);
    let exts = vec![synthetic_extent(32, 4), synthetic_extent(32, 1)];
    let map = build_extent_map(32, &exts);
    assert_eq!(write_through_extent_map(&mut dev, 32, &map, 30, b"abcd").unwrap(), 4);
    let mut out = Vec::new();
    read_file_data(&dev, 32, &exts, 64, &mut out).unwrap();
    assert_eq!(&out[..30], &[7u8; 30]);
    assert_eq!(&out[30..34], b"abcd");
    assert_eq!(&out[34..], &[7u8; 30]);
    // A hole ends the write
    assert_eq!(write_through_extent_map(&mut dev, 32, &map, 62, b"wxyz").unwrap(), 2);
    assert_eq!(write_through_extent_map(&mut dev, 32, &map, 64, b"wxyz").unwrap(), 0);
}

#[test]
fn a_raw_write_needs_whole_blocks_on_the_device() {
    let mut dev = MemoryDevice::new(vec![0u8; 100]);
    write_raw_at(&mut dev, 32, 30, b"abcd").unwrap();
    assert_eq!(&dev.data[30..34], b"abcd");
    assert!(write_raw_at(&mut dev, 32, 96, b"x").is_err());
    assert_eq!(IoError::WriteZero.text(), "failed to write whole buffer");
}
