//! Flag bits on `btn_flags`.

use vstd::prelude::*;

verus! {

pub const ROOT: u16 = 0x0001;

pub const LEAF: u16 = 0x0002;

pub const FIXED_KV_SIZE: u16 = 0x0004;

pub const HASHED: u16 = 0x0008;

pub const NO_HEADER: u16 = 0x0010;

} // verus!
