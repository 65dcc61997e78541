//! Instants: a second, and the nanoseconds in it.
use vstd::prelude::*;

verus! {

/// An instant. The nanoseconds of a leap second go on past its first second, so
/// that it stands between the seconds around it.
#[derive(Clone, Copy, Debug, PartialEq, Eq, PartialOrd, Ord, Structural)]
pub struct Stamp {
    /// Seconds since the epoch.
    pub secs: i64,
    /// Nanoseconds since that second.
    pub nanos: u32,
}

impl Stamp {
    /// Whether the instant comes after `other`.
    pub open spec fn after(self, other: Stamp) -> bool {
        self.secs > other.secs || (self.secs == other.secs && self.nanos > other.nanos)
    }

    /// Whether the instant comes after `other`.
    pub fn is_after(&self, other: &Stamp) -> (after: bool)
        ensures
            after == self.after(*other),
    {
        self.secs > other.secs || (self.secs == other.secs && self.nanos > other.nanos)
    }
}

} // verus!
