//! Points in time and calendar days, held as plain integers.
//!
//! A [`Timestamp`] is a UTC instant: whole seconds since the Unix epoch plus a sub-second
//! nanosecond part, ordered lexicographically exactly as a UTC date-time is. A [`Day`] is a
//! UTC calendar date, counted in days since 1970-01-01.

use vstd::prelude::*;

verus! {

/// Seconds bound (about 253,000 years either side of the epoch) inside which every instant
/// and every instant a century later is a valid calendar date-time.
pub const SECS_LIMIT: i64 = 8_000_000_000_000;

/// Nanoseconds in one second.
pub const NANOS_PER_SEC: u32 = 1_000_000_000;

/// Seconds in one day.
pub const SECS_PER_DAY: i64 = 86_400;

/// A UTC instant: `secs` since the Unix epoch and `nanos` within that second.
#[derive(Clone, Copy, Debug, PartialEq, Eq, Structural)]
pub struct Timestamp {
    pub secs: i64,
    pub nanos: u32,
}

/// A UTC calendar date as a day number (days since 1970-01-01).
pub type Day = i64;

impl Timestamp {
    /// A representable instant: sub-second part below one second, seconds within the limit.
    pub open spec fn wf(self) -> bool {
        &&& self.nanos < NANOS_PER_SEC
        &&& -SECS_LIMIT <= self.secs <= SECS_LIMIT
    }

    /// The instant as a whole number of seconds, for callers that do not need sub-seconds.
    pub fn from_secs(secs: i64) -> (t: Timestamp)
        ensures
            t.secs == secs,
            t.nanos == 0,
    {
        Timestamp { secs, nanos: 0 }
    }

    /// The instant `secs` and `nanos`, if it is representable.
    pub fn checked(secs: i64, nanos: u32) -> (t: Option<Timestamp>)
        ensures
            match t {
                Some(t) => t.secs == secs && t.nanos == nanos && t.wf(),
                None => !(Timestamp { secs, nanos }).wf(),
            },
    {
        if nanos < NANOS_PER_SEC && -SECS_LIMIT <= secs && secs <= SECS_LIMIT {
            Some(Timestamp { secs, nanos })
        } else {
            None
        }
    }

    /// This instant moved `n` seconds later.
    pub fn plus_secs(self, n: i64) -> (t: Timestamp)
        requires
            self.wf(),
            0 <= n <= SECS_LIMIT,
        ensures
            t.secs == self.secs + n,
            t.nanos == self.nanos,
    {
        Timestamp { secs: self.secs + n, nanos: self.nanos }
    }

    /// This instant moved `n` whole days later.
    pub fn plus_days(self, n: i64) -> (t: Timestamp)
        requires
            self.wf(),
            0 <= n <= 50_000_000,
        ensures
            t.secs == self.secs + n * SECS_PER_DAY,
            t.nanos == self.nanos,
    {
        Timestamp { secs: self.secs + n * SECS_PER_DAY, nanos: self.nanos }
    }
}

/// `a` is at or before `b`.
pub open spec fn ts_le(a: Timestamp, b: Timestamp) -> bool {
    a.secs < b.secs || (a.secs == b.secs && a.nanos <= b.nanos)
}

/// `a` is strictly before `b`.
pub open spec fn ts_lt(a: Timestamp, b: Timestamp) -> bool {
    a.secs < b.secs || (a.secs == b.secs && a.nanos < b.nanos)
}

/// The UTC calendar day of an instant.
pub open spec fn spec_day_of(t: Timestamp) -> int {
    t.secs as int / SECS_PER_DAY as int
}

/// Whether `a` is at or before `b`.
pub fn at_or_before(a: Timestamp, b: Timestamp) -> (r: bool)
    ensures
        r == ts_le(a, b),
{
    a.secs < b.secs || (a.secs == b.secs && a.nanos <= b.nanos)
}

/// The UTC calendar day on which an instant falls.
pub fn day_of(t: Timestamp) -> (d: Day)
    requires
        t.wf(),
    ensures
        d == spec_day_of(t),
{
    if t.secs >= 0 {
        t.secs / SECS_PER_DAY
    } else {
        let m = (-t.secs - 1) / SECS_PER_DAY;
        proof {
            let s = t.secs as int;
            let q = (-s - 1) / 86400;
            let r = (-s - 1) % 86400;
            assert(-s - 1 == q * 86400 + r) by (nonlinear_arith)
                requires q == (-s - 1) / 86400, r == (-s - 1) % 86400, -s - 1 >= 0;
            assert(0 <= r < 86400);
            assert(s == (-q - 1) * 86400 + (86399 - r)) by (nonlinear_arith)
                requires -s - 1 == q * 86400 + r;
            assert(s / 86400 == -q - 1) by (nonlinear_arith)
                requires s == (-q - 1) * 86400 + (86399 - r), 0 <= 86399 - r < 86400;
        }
        -m - 1
    }
}

} // verus!
