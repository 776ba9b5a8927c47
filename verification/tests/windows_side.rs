use arfw::apfs::device::MemoryDevice;
use arfw::daemon::{
    daemon_step, log_level, mode_for, mount_point_of, DaemonStep, KnownPartitions, Wake,
};
use arfw::device_monitor::{ApfsPartition, DeviceMonitor};
use arfw::device_watcher::{device_event, DeviceEvent};
use arfw::disk::{search_btree_node, whole_sectors, DiskReader};
use arfw::driver::info::slash_path;
use arfw::driver::ReadWriteMode;
use arfw::error::{ntstatus_to_io_error, Error, FailureKind};
use arfw::mount_manager::MountManager;
use arfw::service::{
    handles, must_stop_first, report, wait_step, Control, Phase, WaitStep, WINFSP_WAIT_TIMEOUT_MS,
};
use arfw::utils::{
    apfs_time_to_filetime, filetime_to_apfs_nanos, path_to_wide, wide_length, wide_to_path,
};

#[test]
fn times_are_converted() {
    assert_eq!(apfs_time_to_filetime(0), 116444736000000000);
    assert_eq!(apfs_time_to_filetime(199), 116444736000000001);
    assert_eq!(apfs_time_to_filetime(-199), 116444735999999999);
    assert_eq!(apfs_time_to_filetime(i64::MIN), 116444736000000000 - 92233720368547758);
    assert_eq!(filetime_to_apfs_nanos(0), None);
    assert_eq!(filetime_to_apfs_nanos(116444735999999999), None);
    assert_eq!(filetime_to_apfs_nanos(116444736000000003), Some(300));
    assert_eq!(filetime_to_apfs_nanos(apfs_time_to_filetime(12345)), Some(12300));
    assert_eq!(filetime_to_apfs_nanos(u64::MAX / 2), Some(i64::MAX));
    assert_eq!(filetime_to_apfs_nanos(u64::MAX), Some(i64::MIN));
}

#[test]
fn paths_are_converted() {
    assert_eq!(path_to_wide("a\u{1F600}"), vec![0x61, 0xD83D, 0xDE00, 0]);
    assert_eq!(wide_to_path(&[0x61, 0xD83D, 0xDE00, 0, 0x62]), "a\u{1F600}");
    assert_eq!(wide_to_path(&path_to_wide("/tmp/\u{e9}")), "/tmp/\u{e9}");
    assert_eq!(wide_to_path(&[0xD83D, 0x61]), "\u{FFFD}a");
    assert_eq!(wide_length(&[1, 2, 0, 3]), 2);
    assert_eq!(wide_length(&[1, 2]), 2);
    assert_eq!(slash_path("\\a\\b/c"), "/a/b/c");
    assert_eq!(mount_point_of("X:"), "\\\\.\\X:");
    assert_eq!(mount_point_of("C:\\mnt"), "C:\\mnt");
    assert_eq!(mount_point_of("\u{e9}:"), "\u{e9}:");
}

#[test]
fn statuses_stand_for_io_failures() {
    let e = ntstatus_to_io_error(0xC0000034u32 as i32);
    assert_eq!((e.kind, e.message.as_str()), (FailureKind::NotFound, "Object name not found"));
    let e = ntstatus_to_io_error(0xC000003Au32 as i32);
    assert_eq!((e.kind, e.message.as_str()), (FailureKind::NotFound, "Path not found"));
    let e = ntstatus_to_io_error(0xC0000022u32 as i32);
    assert_eq!((e.kind, e.message.as_str()), (FailureKind::PermissionDenied, "Access denied"));
    let e = ntstatus_to_io_error(0xC0000043u32 as i32);
    assert_eq!((e.kind, e.message.as_str()), (FailureKind::InvalidInput, "Sharing violation"));
    let e = ntstatus_to_io_error(0xC00000ABu32 as i32);
    assert_eq!((e.kind, e.message.as_str()), (FailureKind::Other, "NTSTATUS: 0xC00000AB"));
    assert_eq!(ntstatus_to_io_error(1).message, "NTSTATUS: 0x00000001");
    assert_eq!(Error::InvalidPath("x".to_string()).message(), "Invalid path: x");
    assert_eq!(Error::NotFound("x".to_string()).message(), "Not found: x");
    assert_eq!(Error::WinFsp("x".to_string()).message(), "WinFsp error: x");
    assert_eq!(Error::Windows("x".to_string()).message(), "Windows API error: x");
}

fn entry(style: u32, apfs: bool, number: u32, offset: u64, size: u64) -> Vec<u8> {
    let guid: [u8; 16] = [
        0xEF, 0x57, 0x34, 0x7C, 0x00, 0x00, 0xAA, 0x11, 0xAA, 0x11, 0x00, 0x30, 0x65, 0x43, 0xEC,
        0xAC,
    ];
    let mut e = vec![0u8; 144];
    e[0..4].copy_from_slice(&style.to_le_bytes());
    e[8..16].copy_from_slice(&offset.to_le_bytes());
    e[16..24].copy_from_slice(&size.to_le_bytes());
    e[24..28].copy_from_slice(&number.to_le_bytes());
    if apfs {
        e[32..48].copy_from_slice(&guid);
    }
    e
}

fn layout(entries: &[Vec<u8>]) -> Vec<u8> {
    let mut b = vec![0u8; 48];
    b[0] = 1;
    b[4..8].copy_from_slice(&(entries.len() as u32).to_le_bytes());
    for e in entries {
        b.extend_from_slice(e);
    }
    b
}

#[test]
fn apfs_partitions_are_found() {
    let disks = vec![
        Some(layout(&[
            entry(1, false, 1, 10, 20),
            entry(1, true, 2, 1 << 20, 1 << 30),
            entry(0, true, 3, 5, 6),
        ])),
        Some(vec![]),
        Some(layout(&[entry(1, true, 7, 8, 9)])),
        None,
        Some(layout(&[entry(1, true, 1, 1, 1)])),
    ];
    let found = DeviceMonitor::scan_apfs_partitions(&disks);
    assert_eq!(found.len(), 2);
    assert_eq!((found[0].disk_number, found[0].partition_number), (0, 2));
    assert_eq!((found[0].offset, found[0].size), (1 << 20, 1 << 30));
    assert_eq!(found[0].device_path, "\\\\.\\PhysicalDrive0");
    assert_eq!((found[1].disk_number, found[1].partition_number), (2, 7));
    assert_eq!(found[1].device_path, "\\\\.\\PhysicalDrive2");
}

#[test]
fn free_drive_letters_are_found() {
    let mut types = vec![3u32; 23];
    types[0] = 1;
    types[22] = 1;
    assert_eq!(DeviceMonitor::find_available_drive_letters(&types), vec!['D', 'Z']);
    assert!(DeviceMonitor::find_available_drive_letters(&[3]).is_empty());
}

fn partition(disk: u32, number: u32) -> ApfsPartition {
    ApfsPartition {
        disk_number: disk,
        partition_number: number,
        device_path: format!("\\\\.\\PhysicalDrive{disk}"),
        offset: 0,
        size: 0,
    }
}

#[test]
fn partitions_are_told_apart() {
    let mut known = std::collections::HashSet::new();
    assert!(known.insert(partition(1, 2)));
    assert!(!known.insert(partition(1, 2)));
    assert!(known.insert(partition(2, 1)));
    assert_eq!(partition(1, 2), partition(1, 2).clone());
}

#[test]
fn mounts_are_kept_by_partition() {
    let mut m: MountManager<&str> = MountManager::new();
    assert!(m.mount_partition(partition(1, 2), 'D', "first").is_none());
    assert!(m.mount_partition(partition(3, 4), 'E', "second").is_none());
    let given_up = m.mount_partition(partition(1, 2), 'F', "third").unwrap();
    assert_eq!((given_up.host, given_up.drive_letter), ("first", 'D'));
    assert!(m.is_mounted(1, 2));
    assert!(!m.is_mounted(2, 1));
    assert_eq!(m.get_mounted_disks(), vec![3, 1]);
    assert_eq!(m.unmount_partition(3, 4).unwrap().host, "second");
    assert!(m.unmount_partition(3, 4).is_none());
    assert_eq!(m.get_mounted_disks(), vec![1]);
}

#[test]
fn the_daemon_mounts_what_is_new_and_drops_what_is_gone() {
    let mut k = KnownPartitions::new();
    let scan = vec![partition(0, 1), partition(0, 2)];
    assert_eq!(k.next_to_mount(&scan, 0), Some(0));
    k.mounted((0, 1));
    k.mounted((0, 1));
    assert_eq!(k.next_to_mount(&scan, 0), Some(1));
    assert_eq!(k.next_to_mount(&scan, 2), None);
    k.mounted((0, 2));
    assert_eq!(k.next_to_mount(&scan, 0), None);
    assert_eq!(k.take_removed(&vec![partition(0, 2), partition(9, 9)]), vec![(0, 1)]);
    assert!(!k.contains((0, 1)));
    assert!(k.contains((0, 2)));
    assert!(!k.contains((9, 9)));
}

#[test]
fn the_daemon_reacts() {
    assert_eq!(device_event(0), Some(DeviceEvent::Added));
    assert_eq!(device_event(1), Some(DeviceEvent::Removed));
    assert_eq!(device_event(2), None);
    assert_eq!(daemon_step(Wake::Device(DeviceEvent::Removed)), DaemonStep::Rescan);
    assert_eq!(daemon_step(Wake::WatcherGone), DaemonStep::Stop);
    assert_eq!(daemon_step(Wake::Idle { shutdown: false }), DaemonStep::Wait);
    assert_eq!(daemon_step(Wake::Idle { shutdown: true }), DaemonStep::Stop);
    assert_eq!(mode_for(true), ReadWriteMode::ReadWriteUnsafe);
    assert_eq!(mode_for(false), ReadWriteMode::ReadOnly);
    assert_eq!(log_level(true), "debug");
    assert_eq!(log_level(false), "info");
}

#[test]
fn the_service_waits_and_gives_up() {
    assert_eq!(wait_step(true, 0, 0), WaitStep::Ready);
    match wait_step(false, 10, 3) {
        WaitStep::Again(r) => {
            assert_eq!((r.phase, r.checkpoint, r.accepts_stop), (Phase::StartPending, 4, false));
            assert_eq!(r.wait_hint_ms, WINFSP_WAIT_TIMEOUT_MS);
        }
        _ => panic!("another attempt was due"),
    }
    assert_eq!(wait_step(false, 60000, 3), WaitStep::GiveUp(report(Phase::Stopped, 1)));
    assert!(report(Phase::Running, 0).accepts_stop);
    assert!(!report(Phase::Stopped, 0).accepts_stop);
    assert!(handles(Control::Stop));
    assert!(handles(Control::Interrogate));
    assert!(!handles(Control::Other));
    assert!(must_stop_first(Phase::Running));
    assert!(!must_stop_first(Phase::Stopped));
}

#[test]
fn disks_are_read_by_whole_sectors() {
    assert_eq!(whole_sectors(0, 512, 2048), (0, 512));
    assert_eq!(whole_sectors(500, 20, 2048), (0, 1024));
    assert_eq!(whole_sectors(1500, 530, 2048), (1024, 1024));
    assert_eq!(whole_sectors(1500, 530, 2040), (1024, 1016));
}

#[test]
fn a_raw_node_is_searched() {
    let mut node = vec![0u8; 256];
    node[80..88].copy_from_slice(&77u64.to_le_bytes());
    node[88 + 16..96 + 16].copy_from_slice(&5u64.to_le_bytes());
    assert_eq!(search_btree_node(&node, 77).unwrap(), 5);
    assert!(search_btree_node(&node, 78).is_err());
    // An implausible address is passed over
    node[88 + 16..96 + 16].copy_from_slice(&1_000_000_000u64.to_le_bytes());
    assert!(search_btree_node(&node, 77).is_err());
}

#[test]
fn volume_space_is_read_from_the_superblock() {
    let mut disk = vec![0u8; 4096 * 8];
    disk[36..40].copy_from_slice(&4096u32.to_le_bytes());
    disk[160..168].copy_from_slice(&1u64.to_le_bytes());
    let reader = DiskReader::with_offset(MemoryDevice::new(disk.clone()), 0, String::new());
    assert_eq!(
        reader.read_apfs_volume_space().unwrap_err().message(),
        "APFS error: No volume found in container"
    );
    disk[184..192].copy_from_slice(&99u64.to_le_bytes());
    disk[4096 + 48..4096 + 56].copy_from_slice(&2u64.to_le_bytes());
    disk[8192 + 72..8192 + 80].copy_from_slice(&99u64.to_le_bytes());
    disk[8192 + 96..8192 + 104].copy_from_slice(&3u64.to_le_bytes());
    disk[12288 + 224..12288 + 232].copy_from_slice(&1000u64.to_le_bytes());
    disk[12288 + 232..12288 + 240].copy_from_slice(&400u64.to_le_bytes());
    let reader = DiskReader::with_offset(MemoryDevice::new(disk), 0, String::new());
    assert_eq!(reader.read_apfs_volume_space().unwrap(), (1000, 400));
    let short = DiskReader::with_offset(MemoryDevice::new(vec![0u8; 100]), 0, String::new());
    assert_eq!(
        short.read_apfs_container_size().unwrap_err().message(),
        "I/O error: failed to fill whole buffer"
    );
}
