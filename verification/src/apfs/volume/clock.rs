//! The time of day.

use std::time::UNIX_EPOCH;
use vstd::prelude::*;

verus! {

/// `SystemTime::elapsed` of the Unix epoch, in nanoseconds; `None` when the
/// clock stands before the epoch. Nothing is promised of the result: it is
/// whatever the clock shows.
#[verifier::external_body]
fn since_epoch() -> (r: Option<u128>) {
    match UNIX_EPOCH.elapsed() {
        Ok(d) => Some(d.as_nanos()),
        Err(_) => None,
    }
}

/// The time that is stored for what the clock shows: 0 when it stands before
/// the epoch.
pub fn stored_nanos(since: Option<u128>) -> (t: i64)
    ensures
        t == (match since {
            Some(n) => n as i64,
            None => 0,
        }),
{
    match since {
        Some(n) => n as i64,
        None => 0,
    }
}

/// The time to store for a change that is made now.
pub(crate) fn now_nanos() -> i64 {
    stored_nanos(since_epoch())
}

} // verus!
