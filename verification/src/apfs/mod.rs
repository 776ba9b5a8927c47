//! APFS read/write implementation.
//!
//! On-disk structures follow Apple's APFS Reference.

pub mod btree;
pub mod bytes;
pub mod catalog;
pub mod checkpoint;
pub mod device;
pub mod error;
pub mod extentref;
pub mod extents;
pub mod fletcher;
pub mod hash;
pub mod layouts;
pub mod object;
pub mod omap;
pub mod packed;
pub mod path;
pub mod spaceman;
pub mod superblock;
pub mod text;
pub mod transaction;
pub mod types;
pub mod utf8;
pub mod verify;
pub mod volume;

pub use crate::apfs::error::ApfsError;
pub use crate::apfs::types::{DirEntry, EntryKind, FileStat, VolumeInfo, WalkEntry};
pub use crate::apfs::volume::ApfsVolume;
