//! A mounted APFS volume.

pub mod clock;
pub mod commit;
pub mod create;
pub mod data;
pub mod effects;
pub mod fill;
pub mod frame;
pub mod grow;
pub mod law_append;
pub mod law_create;
pub mod law_grow;
pub mod law_image;
pub mod law_longer;
pub mod law_made;
pub mod law_remove;
pub mod law_rename;
pub mod law_replace;
pub mod law_success;
pub mod law_told;
pub mod law_walk;
pub mod laws;
pub mod leaves;
pub mod listing;
pub mod model;
pub mod names;
pub mod place;
pub mod read;
pub mod remount;
pub mod remove;
pub mod rename;
pub mod state;
pub mod steps;
pub mod success;
pub mod swap;
pub mod tree;
pub mod update;
pub mod walks;
pub mod write;

pub use crate::apfs::volume::state::ApfsVolume;
