//! Space manager and chunk-bitmap allocator.
//!
//! Scope: a single MAIN device (no Fusion / TIER2), one direct array of chunk
//! info blocks (no CAB indirection), bitmap changes kept in memory.

pub mod bits;
pub mod laws;
pub mod layout;
pub mod manager;

pub use crate::apfs::spaceman::bits::{
    clear_bit, find_clear_run, find_first_clear_bit, find_first_clear_run, get_bit, set_bit,
};
pub use crate::apfs::spaceman::layout::{
    ChunkInfo, ChunkInfoBlock, Spaceman, SpacemanDevice, SpacemanFreeQueue, SD_COUNT, SD_MAIN,
    SD_TIER2, SFQ_COUNT,
};
pub use crate::apfs::spaceman::manager::SpaceManager;
