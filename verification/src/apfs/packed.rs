//! Words that hold a 60-bit number and a 4-bit kind.

use vstd::prelude::*;

verus! {

/// One more than the largest number below the kind.
pub const KIND_UNIT: u64 = 0x1000_0000_0000_0000;

/// A 60-bit number and a 4-bit kind in one word.
pub open spec fn packed(number: u64, kind: int) -> u64 {
    (number % KIND_UNIT + (kind % 16) * KIND_UNIT) as u64
}

/// The number inside a word.
pub open spec fn packed_number(w: u64) -> u64 {
    w % KIND_UNIT
}

/// The kind inside a word.
pub open spec fn packed_kind(w: u64) -> u8 {
    (w / KIND_UNIT) as u8
}

/// What was packed is unpacked again.
pub proof fn law_pack_unpack(number: u64, kind: int)
    requires
        number < KIND_UNIT,
        0 <= kind < 16,
    ensures
        packed_number(packed(number, kind)) == number,
        packed_kind(packed(number, kind)) == kind,
{
}

} // verus!
