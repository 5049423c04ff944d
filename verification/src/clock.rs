use vstd::prelude::*;

use std::time::{Duration, SystemTime, SystemTimeError};

verus! {

#[verifier::external_type_specification]
#[verifier::external_body]
pub struct ExSystemTime(SystemTime);

#[verifier::external_type_specification]
#[verifier::external_body]
pub struct ExSystemTimeError(SystemTimeError);

/// The system clock's reading: calls `std::time::SystemTime::now`. The
/// reading depends on the time of the call, so nothing is stated of it.
#[verifier::external_body]
fn system_now() -> (t: SystemTime) {
    SystemTime::now()
}

/// Time from the Unix epoch to `t`: calls `SystemTime::duration_since` with
/// `UNIX_EPOCH`, which fails when `t` lies before the epoch. `Duration` has no
/// view here, so nothing is stated of the result.
#[verifier::external_body]
fn since_unix_epoch(t: &SystemTime) -> (d: Result<Duration, SystemTimeError>) {
    t.duration_since(std::time::UNIX_EPOCH)
}

/// Whole milliseconds in `d`: calls `Duration::as_millis`. `Duration` has no
/// view here, so nothing is stated of the result.
#[verifier::external_body]
fn whole_millis(d: &Duration) -> (ms: u128) {
    d.as_millis()
}

/// Milliseconds since the Unix epoch according to the system clock (zero when
/// the clock reads earlier than the epoch), truncated to 64 bits.
///
/// This is a wall clock: a process-wide monotonic origin would need a
/// `static`, which this library cannot hold. The value depends on the time of
/// the call, so nothing is stated of it.
pub fn now_unix_ms() -> (ms: u64) {
    let t = system_now();
    match since_unix_epoch(&t) {
        Ok(d) => {
            let full = whole_millis(&d);
            full as u64
        },
        Err(_) => 0,
    }
}

} // verus!
