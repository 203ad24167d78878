//! Wall-clock timestamps, monotonic instants and spans of time.
use std::time::{Instant, SystemTime, UNIX_EPOCH};
use vstd::prelude::*;

verus! {

/// A point on the wall clock: `secs` whole seconds from the Unix epoch (rounded towards the
/// past) and `nanos` nanoseconds beyond them.
#[derive(Debug, Clone, Copy, PartialEq, Eq, PartialOrd, Ord, Structural)]
pub struct Timestamp {
    pub secs: i64,
    pub nanos: u32,
}

impl Timestamp {
    /// 1970-01-01 00:00:00 UTC.
    pub open spec fn spec_unix_epoch() -> Timestamp {
        Timestamp { secs: 0, nanos: 0 }
    }

    /// 1970-01-01 00:00:00 UTC.
    #[verifier::when_used_as_spec(spec_unix_epoch)]
    pub fn unix_epoch() -> (r: Timestamp)
        ensures
            r == Timestamp::spec_unix_epoch(),
    {
        Timestamp { secs: 0, nanos: 0 }
    }

    /// How far the point is from the epoch, in nanoseconds.
    pub open spec fn from_epoch(self) -> int {
        self.secs * 1_000_000_000 + self.nanos
    }

    /// The point that is this far after the epoch, or before it. One that is out of reach becomes
    /// the last point there is, or the first.
    pub fn at_distance(after: bool, secs: u64, nanos: u32) -> (r: Timestamp)
        requires
            nanos < 1_000_000_000,
        ensures
            r.nanos < 1_000_000_000,
            secs <= i64::MAX ==> r.from_epoch() == if after {
                secs * 1_000_000_000 + nanos
            } else {
                -(secs * 1_000_000_000 + nanos)
            },
            secs > i64::MAX ==> r == if after {
                Timestamp { secs: i64::MAX, nanos: 999_999_999 }
            } else {
                Timestamp { secs: i64::MIN, nanos: 0 }
            },
    {
        if secs > i64::MAX as u64 {
            if after {
                Timestamp { secs: i64::MAX, nanos: 999_999_999 }
            } else {
                Timestamp { secs: i64::MIN, nanos: 0 }
            }
        } else if after {
            Timestamp { secs: secs as i64, nanos }
        } else if nanos == 0 {
            Timestamp { secs: -(secs as i64), nanos: 0 }
        } else {
            Timestamp { secs: -(secs as i64) - 1, nanos: 1_000_000_000 - nanos }
        }
    }

    /// The time on the wall clock.
    pub(crate) fn now() -> (r: Timestamp)
        ensures
            r.nanos < 1_000_000_000,
    {
        let (after, secs, nanos) = wall_clock();
        Timestamp::at_distance(after, secs, nanos)
    }
}

/// Reads the wall clock through `std::time::SystemTime::now`: whether it is past the epoch, and the
/// whole seconds and the nanoseconds beyond them between the two. Of the reading it is only claimed
/// that the nanoseconds are less than a second, as `std::time::Duration::subsec_nanos` promises.
#[verifier::external_body]
fn wall_clock() -> (r: (bool, u64, u32))
    ensures
        r.2 < 1_000_000_000,
{
    match SystemTime::now().duration_since(UNIX_EPOCH) {
        Ok(d) => (true, d.as_secs(), d.subsec_nanos()),
        Err(e) => (false, e.duration().as_secs(), e.duration().subsec_nanos()),
    }
}

/// A span of time in nanoseconds.
#[derive(Debug, Clone, Copy, PartialEq, Eq, Structural)]
pub struct Duration {
    pub nanos: u128,
}

impl Duration {
    pub open spec fn spec_from_millis(millis: u64) -> Duration {
        Duration { nanos: (millis * 1_000_000) as u128 }
    }

    #[verifier::when_used_as_spec(spec_from_millis)]
    pub fn from_millis(millis: u64) -> (r: Duration)
        ensures
            r == Duration::spec_from_millis(millis),
    {
        Duration { nanos: millis as u128 * 1_000_000 }
    }

    pub open spec fn spec_from_secs(secs: u64) -> Duration {
        Duration { nanos: (secs * 1_000_000_000) as u128 }
    }

    #[verifier::when_used_as_spec(spec_from_secs)]
    pub fn from_secs(secs: u64) -> (r: Duration)
        ensures
            r == Duration::spec_from_secs(secs),
    {
        Duration { nanos: secs as u128 * 1_000_000_000 }
    }
}

/// `std::time::Instant`, a reading of the monotonic clock, carried as an opaque value.
#[verifier::external_type_specification]
#[verifier::external_body]
pub struct ExInstant(Instant);

/// Reads the monotonic clock through `std::time::Instant::now`. Nothing is claimed of the reading.
#[verifier::external_body]
pub(crate) fn instant_now() -> Instant {
    Instant::now()
}

/// The time passed since `earlier`, through `std::time::Instant::elapsed`. Nothing is claimed of
/// the reading.
#[verifier::external_body]
pub(crate) fn elapsed_since(earlier: &Instant) -> Duration {
    Duration { nanos: earlier.elapsed().as_nanos() }
}

} // verus!
