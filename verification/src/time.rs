//! Points in time.
use vstd::prelude::*;

verus! {

/// Seconds and nanoseconds since the epoch.
#[derive(Clone, Copy, PartialEq, Eq, Structural, Debug)]
pub struct Timestamp {
    pub secs: i64,
    pub nanos: u32,
}

impl Timestamp {
    pub fn new(secs: i64, nanos: u32) -> (res: Timestamp)
        ensures
            res == (Timestamp { secs, nanos }),
    {
        Timestamp { secs, nanos }
    }

    pub fn from_secs(secs: i64) -> (res: Timestamp)
        ensures
            res == (Timestamp { secs, nanos: 0 }),
    {
        Timestamp { secs, nanos: 0 }
    }

    /// Whether this time is later than another.
    pub open spec fn after(self, other: Timestamp) -> bool {
        self.secs > other.secs || (self.secs == other.secs && self.nanos > other.nanos)
    }

    /// Whether this time is later than another.
    pub fn is_after(self, other: Timestamp) -> (res: bool)
        ensures
            res == self.after(other),
    {
        self.secs > other.secs || (self.secs == other.secs && self.nanos > other.nanos)
    }
}

} // verus!
