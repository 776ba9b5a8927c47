//! APFS containers: on-disk structures, catalog operations and the rules the
//! Windows file system host follows when it serves a volume.

pub mod apfs;
pub mod daemon;
pub mod device_monitor;
pub mod device_watcher;
pub mod disk;
pub mod driver;
pub mod error;
pub mod mount_manager;
pub mod service;
pub mod utils;
