//! The system clock, which the search reads to stamp table entries and to
//! stop deepening.
use vstd::prelude::*;

verus! {

#[verifier::external_type_specification]
#[verifier::external_body]
pub struct ExSystemTime(std::time::SystemTime);

/// `std::time::SystemTime::now`: the current time of the system clock.
/// Nothing is claimed of it.
#[verifier::external_body]
pub(crate) fn system_now() -> (r: std::time::SystemTime) {
    std::time::SystemTime::now()
}

/// `SystemTime::duration_since` in whole milliseconds: the time from
/// `earlier` to `later`, or 0 when the clock reads `later` before `earlier`.
/// Nothing is claimed of the number, which depends on the clock.
#[verifier::external_body]
pub(crate) fn millis_between(earlier: &std::time::SystemTime, later: &std::time::SystemTime) -> (r: u128) {
    match later.duration_since(*earlier) {
        Ok(d) => d.as_millis(),
        Err(_) => 0,
    }
}

/// `SystemTime::duration_since(UNIX_EPOCH)` in whole milliseconds: the
/// time since the Unix epoch, or 0 when the clock reads before it. Nothing
/// is claimed of the number, which depends on the clock.
#[verifier::external_body]
pub(crate) fn millis_since_epoch(t: &std::time::SystemTime) -> (r: u128) {
    match t.duration_since(std::time::UNIX_EPOCH) {
        Ok(d) => d.as_millis(),
        Err(_) => 0,
    }
}

} // verus!
