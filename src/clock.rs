//! Dates on the real-time core's clocks, as plain nanosecond counts.
//!
//! The core reads and takes dates as a pair of whole seconds and nanoseconds
//! past that second; callers hold them as one count of nanoseconds since the
//! clock's epoch.
use vstd::prelude::*;

verus! {

/// Nanoseconds in one second.
pub const NSEC_PER_SEC: u64 = 1_000_000_000;

/// Splits a date given in nanoseconds since the epoch into whole seconds and
/// the nanoseconds past the last whole second.
pub fn split_date(ns: u64) -> (r: (u64, u64))
    ensures
        r.0 == ns / NSEC_PER_SEC,
        r.1 == ns % NSEC_PER_SEC,
        r.0 * NSEC_PER_SEC + r.1 == ns,
{
    (ns / NSEC_PER_SEC, ns % NSEC_PER_SEC)
}

/// The date in nanoseconds since the epoch of a clock reading of `secs`
/// whole seconds and `nsecs` nanoseconds.
pub fn date_from_parts(secs: u64, nsecs: u64) -> (r: u64)
    requires
        secs * NSEC_PER_SEC + nsecs <= u64::MAX,
    ensures
        r == secs * NSEC_PER_SEC + nsecs,
{
    secs * NSEC_PER_SEC + nsecs
}

} // verus!
