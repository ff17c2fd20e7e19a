//! Points in time and spans between them.
use vstd::prelude::*;

verus! {

/// A point in time, in UTC.
#[derive(Clone, Copy, Debug, PartialEq, Eq, Structural)]
pub struct Timestamp {
    /// Whole seconds since 1970-01-01T00:00:00Z, rounded down.
    pub secs: i64,
    /// Nanoseconds on top of them.
    pub nanos: u32,
}

/// A length of time; never negative.
#[derive(Clone, Copy, Debug, PartialEq, Eq, Structural)]
pub struct Span {
    pub secs: u64,
    pub nanos: u32,
}

/// A signed length of time.
#[derive(Clone, Copy, Debug, PartialEq, Eq, Structural)]
pub struct Delta {
    pub nanos: i128,
}

impl Delta {
    pub fn seconds(secs: i64) -> (r: Delta)
        ensures
            r.nanos == secs * 1_000_000_000,
    {
        Delta { nanos: secs as i128 * 1_000_000_000 }
    }
}

impl Timestamp {
    /// Nanoseconds since 1970-01-01T00:00:00Z.
    pub open spec fn total(&self) -> int {
        self.secs * 1_000_000_000 + self.nanos
    }

    /// The moment `secs` seconds after 1970-01-01T00:00:00Z.
    pub fn at(secs: i64) -> (r: Timestamp)
        ensures
            r == (Timestamp { secs, nanos: 0 }),
    {
        Timestamp { secs, nanos: 0 }
    }

    /// Nanoseconds since 1970-01-01T00:00:00Z.
    pub fn total_nanos(&self) -> (r: i128)
        ensures
            r == self.total(),
    {
        self.secs as i128 * 1_000_000_000 + self.nanos as i128
    }
}

impl Span {
    /// Length in nanoseconds.
    pub open spec fn total(&self) -> int {
        self.secs * 1_000_000_000 + self.nanos
    }

    pub fn from_secs(secs: u64) -> (r: Span)
        ensures
            r == (Span { secs, nanos: 0 }),
    {
        Span { secs, nanos: 0 }
    }

    /// Length in nanoseconds.
    pub fn total_nanos(&self) -> (r: i128)
        ensures
            r == self.total(),
    {
        self.secs as i128 * 1_000_000_000 + self.nanos as i128
    }
}

/// `chrono::Utc::now`: what the clock says. Two calls may differ.
#[verifier::external_body]
pub(crate) fn now() -> Timestamp {
    let t = chrono::Utc::now();
    Timestamp { secs: t.timestamp(), nanos: t.timestamp_subsec_nanos() }
}

} // verus!
