//! Time and id helpers shared by the repositories.

use vstd::prelude::*;
use crate::models::Timestamp;
use crate::tokens::{is_uuid_text, new_uuid};

verus! {

/// `std::time::SystemTime`, carried through as is.
#[verifier::external_type_specification]
#[verifier::external_body]
pub struct ExSystemTime(std::time::SystemTime);

/// `SystemTime::now`. The reading depends on the clock: nothing is claimed
/// of it.
#[verifier::external_body]
fn system_now() -> std::time::SystemTime {
    std::time::SystemTime::now()
}

/// `SystemTime::duration_since(UNIX_EPOCH)`, with its error (a time before the
/// epoch) as `None`. The time is opaque here, so nothing is claimed of the
/// result.
#[verifier::external_body]
fn since_epoch(t: &std::time::SystemTime) -> Option<core::time::Duration> {
    t.duration_since(std::time::UNIX_EPOCH).ok()
}

/// `Duration::as_millis`: the whole milliseconds of a duration. The duration
/// is opaque here, so nothing is claimed of the result.
#[verifier::external_body]
fn duration_millis(d: &core::time::Duration) -> u128 {
    d.as_millis()
}

/// A clock reading as a timestamp: the milliseconds cast to `i64` (as `as`
/// casts), or 0 when the clock reads before the epoch.
pub fn timestamp_of(since_epoch_ms: Option<u128>) -> (t: Timestamp)
    ensures
        t == timestamp_of_spec(since_epoch_ms),
{
    match since_epoch_ms {
        Some(ms) => ms as i64,
        None => 0,
    }
}

/// Current unix time in milliseconds UTC: the clock's reading through
/// [`timestamp_of`]. What the clock reads is not stated.
pub fn now_ms() -> Timestamp {
    let now = system_now();
    let ms = match since_epoch(&now) {
        Some(d) => Some(duration_millis(&d)),
        None => None,
    };
    timestamp_of(ms)
}

pub open spec fn timestamp_of_spec(since_epoch_ms: Option<u128>) -> Timestamp {
    match since_epoch_ms {
        Some(ms) => ms as i64,
        None => 0,
    }
}

/// A fresh UUID v4 string, used for all primary keys.
pub fn new_id() -> (s: String)
    ensures
        is_uuid_text(s@),
{
    new_uuid()
}

} // verus!
