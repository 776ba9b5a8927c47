//! What the file system host is told when Windows asks about a volume.

pub mod cache;
pub mod change;
pub mod info;
pub mod law_change;
pub mod law_serve;
pub mod laws;
pub mod serve;
pub mod state;

pub use crate::driver::info::{FileInfo, ReadWriteMode};
pub use crate::driver::serve::DirLine;
pub use crate::driver::state::{ApfsDriver, ApfsFileContext};
