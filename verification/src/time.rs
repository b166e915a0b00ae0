//! Spans of time.
use vstd::prelude::*;

verus! {

/// A span of time in nanoseconds.
#[derive(Clone, Copy, Debug, PartialEq, Eq, Structural)]
pub struct Duration {
    pub nanos: u128,
}

/// The nanoseconds of a second.
pub const NANOS_PER_SEC: u128 = 1_000_000_000;

impl Duration {
    /// A span of whole seconds.
    pub fn from_secs(secs: u64) -> (d: Duration)
        ensures
            d.nanos == secs * 1_000_000_000,
    {
        Duration { nanos: secs as u128 * NANOS_PER_SEC }
    }

    /// A span of whole milliseconds.
    pub fn from_millis(millis: u64) -> (d: Duration)
        ensures
            d.nanos == millis * 1_000_000,
    {
        Duration { nanos: millis as u128 * 1_000_000 }
    }
}

/// How much time has passed from one moment to another; none where the second
/// comes first.
pub open spec fn elapsed_spec(from: u128, now: u128) -> int {
    if now >= from {
        now - from
    } else {
        0
    }
}

/// How much time has passed from one moment to another.
pub fn elapsed(from: u128, now: u128) -> (d: Duration)
    ensures
        d.nanos == elapsed_spec(from, now),
{
    Duration { nanos: now.saturating_sub(from) }
}

/// The time that has passed, added to the moment it is counted from, gives the
/// later moment.
pub proof fn elapsed_leads_to_now(from: u128, now: u128)
    ensures
        from <= now ==> from + elapsed_spec(from, now) == now,
        now < from ==> elapsed_spec(from, now) == 0,
{
}

} // verus!
