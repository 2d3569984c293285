//! The clocks the library reads: the monotonic clock (chat timestamps, the
//! frame counter) and the wall clock (the cursor blink).

use std::time::{Duration, Instant, SystemTime, UNIX_EPOCH};
use vstd::prelude::*;

verus! {

#[verifier::external_type_specification]
#[verifier::external_body]
pub struct ExInstant(Instant);

/// `Instant::now`: the current instant. Nothing is claimed of its value.
#[verifier::external_body]
pub(crate) fn instant_now() -> (r: Instant) {
    Instant::now()
}

/// `Instant::elapsed`: the time since `start`. Nothing is claimed of its
/// value.
#[verifier::external_body]
pub(crate) fn instant_elapsed(start: &Instant) -> (r: Duration) {
    start.elapsed()
}

/// `Duration::as_nanos`: a duration in whole nanoseconds. Nothing is
/// claimed of its value, since `Duration` is opaque here.
#[verifier::external_body]
pub(crate) fn duration_as_nanos(d: &Duration) -> (r: u128) {
    d.as_nanos()
}


#[verifier::external_type_specification]
#[verifier::external_body]
pub struct ExSystemTime(SystemTime);

/// `SystemTime::now`: the wall-clock time. Nothing is claimed of its value.
#[verifier::external_body]
pub(crate) fn system_time_now() -> (r: SystemTime) {
    SystemTime::now()
}

/// `SystemTime::duration_since(UNIX_EPOCH)`: the time since the Unix epoch,
/// `None` for a time before it. Nothing is claimed of its value.
#[verifier::external_body]
pub(crate) fn since_unix_epoch(t: &SystemTime) -> (r: Option<Duration>) {
    t.duration_since(UNIX_EPOCH).ok()
}

/// `Duration::as_millis`: a duration in whole milliseconds. Nothing is
/// claimed of its value, since `Duration` is opaque here.
#[verifier::external_body]
pub(crate) fn duration_as_millis(d: &Duration) -> (r: u128) {
    d.as_millis()
}

} // verus!
