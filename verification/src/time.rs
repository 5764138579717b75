use vstd::prelude::*;

use std::time::SystemTime;
use std::time::UNIX_EPOCH;

verus! {

/// Milliseconds of wall-clock time. Relies on std's
/// `SystemTime::now`, `SystemTime::duration_since` and
/// `Duration::as_millis`: the milliseconds elapsed since the Unix epoch,
/// or zero if the system clock reads before it. Nothing is promised of
/// the value: callers state what holds for every timestamp.
#[verifier::external_body]
pub fn now_ms() -> u64 {
    match SystemTime::now().duration_since(UNIX_EPOCH) {
        Ok(d) => d.as_millis() as u64,
        Err(_) => 0,
    }
}

} // verus!
