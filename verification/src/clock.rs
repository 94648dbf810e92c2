use vstd::prelude::*;
use std::time::{Duration, Instant, SystemTime, SystemTimeError};

verus! {

/// `std::time::SystemTime`, a reading of the wall clock: carried, never looked into.
#[verifier::external_type_specification]
#[verifier::external_body]
pub struct ExSystemTime(SystemTime);

/// `std::time::SystemTimeError`, the error of a wall clock that stands before the
/// moment it is compared with: carried, never looked into.
#[verifier::external_type_specification]
#[verifier::external_body]
pub struct ExSystemTimeError(SystemTimeError);

/// `std::time::Instant`, a reading of the monotonic clock: carried, never looked
/// into.
#[verifier::external_type_specification]
#[verifier::external_body]
pub struct ExInstant(Instant);

/// `SystemTime::now`: the wall clock at the moment of the call. Nothing is claimed
/// of the reading.
#[verifier::external_body]
pub(crate) fn system_now() -> SystemTime {
    SystemTime::now()
}

/// `SystemTime::duration_since`, taken from `UNIX_EPOCH`: the time passed since the
/// epoch, or the error of a clock that stands before it. Nothing is claimed of
/// which comes back.
#[verifier::external_body]
pub(crate) fn since_epoch(moment: &SystemTime) -> Result<Duration, SystemTimeError> {
    moment.duration_since(std::time::UNIX_EPOCH)
}

/// The whole seconds that a duration holds: what `Duration::as_secs` returns for it.
pub uninterp spec fn seconds_in(span: Duration) -> u64;

/// `Duration::as_secs`: the whole seconds of a duration. The number depends on the
/// duration alone, which is all that is claimed: it is the one that `seconds_in`
/// names.
#[verifier::external_body]
pub(crate) fn whole_seconds(span: &Duration) -> (seconds: u64)
    ensures
        seconds == seconds_in(*span),
{
    span.as_secs()
}

/// `Instant::now`: the monotonic clock at the moment of the call. Nothing is claimed
/// of the reading.
#[verifier::external_body]
pub(crate) fn instant_now() -> Instant {
    Instant::now()
}

/// `Instant::elapsed`: the time passed since `origin` was read. Nothing is claimed
/// of the span.
#[verifier::external_body]
pub(crate) fn elapsed_since(origin: &Instant) -> Duration {
    origin.elapsed()
}

/// `Duration::as_nanos`: the whole nanoseconds of a duration. Nothing is claimed of
/// the number.
#[verifier::external_body]
pub(crate) fn whole_nanos(span: &Duration) -> u128 {
    span.as_nanos()
}

/// A reading of the monotonic clock, to measure from.
pub fn start_clock() -> Instant {
    instant_now()
}

/// Nanoseconds passed since `origin`.
pub fn elapsed_nanos(origin: &Instant) -> u128 {
    let span = elapsed_since(origin);
    whole_nanos(&span)
}

/// Nanoseconds passed since `origin`, held at the largest `u64` where they pass it.
pub fn nanos_since(origin: &Instant) -> u64 {
    let nanos = elapsed_nanos(origin);
    clamp_to_u64(nanos)
}

/// `value`, held at the largest `u64` where it passes it.
pub fn clamp_to_u64(value: u128) -> (r: u64)
    ensures
        r == if value > u64::MAX {
            u64::MAX
        } else {
            value as u64
        },
{
    if value > 0xffff_ffff_ffff_ffff {
        0xffff_ffff_ffff_ffff
    } else {
        value as u64
    }
}

/// The seconds of a wall-clock reading since the epoch: the whole seconds of the
/// time passed; 0 for a clock that stands before the epoch.
pub fn seconds_of(reading: Result<Duration, SystemTimeError>) -> (seconds: u64)
    ensures
        seconds == match reading {
            Ok(span) => seconds_in(span),
            Err(_) => 0,
        },
{
    match reading {
        Ok(span) => whole_seconds(&span),
        Err(_) => 0,
    }
}

/// Seconds since the epoch by the wall clock; 0 for a clock that stands before it.
pub fn unix_seconds() -> u64 {
    let moment = system_now();
    seconds_of(since_epoch(&moment))
}

} // verus!
