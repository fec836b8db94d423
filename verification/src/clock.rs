//! The wall clock, read in milliseconds since the epoch.

use vstd::prelude::*;
use std::time::{Duration, SystemTime, UNIX_EPOCH};

verus! {

#[verifier::external_type_specification]
#[verifier::external_body]
pub struct ExSystemTime(SystemTime);

/// `SystemTime::now`: the present instant. Nothing is claimed of it.
#[verifier::external_body]
fn system_now() -> (instant: SystemTime) {
    SystemTime::now()
}

/// `SystemTime::duration_since`, taken from `UNIX_EPOCH`: the span from the epoch
/// to `instant`, or nothing where the instant lies before the epoch. Nothing is
/// claimed of the span.
#[verifier::external_body]
fn since_epoch(instant: &SystemTime) -> (span: Option<Duration>) {
    match instant.duration_since(UNIX_EPOCH) {
        Ok(span) => Some(span),
        Err(_) => None,
    }
}

/// `Duration::as_millis`: the whole milliseconds of a span. Nothing is claimed
/// of the number.
#[verifier::external_body]
fn whole_millis(span: &Duration) -> (millis: u128) {
    span.as_millis()
}

/// The present instant in milliseconds since the epoch, cut to 64 bits; zero
/// where the clock stands before the epoch.
pub fn now_ms() -> (now: u64) {
    let instant = system_now();
    match since_epoch(&instant) {
        Some(span) => {
            let millis = whole_millis(&span);
            #[verifier::truncate]
            (millis as u64)
        },
        None => 0,
    }
}

} // verus!
