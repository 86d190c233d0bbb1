//! Points in time and spans of time, both counted in whole nanoseconds.
//!
//! The library never reads a clock. Whoever runs the loop counts nanoseconds from an origin
//! of their choosing and passes `now` in.

use vstd::prelude::*;

verus! {

/// A span of time.
#[derive(Clone, Copy, Debug, PartialEq, Eq, PartialOrd, Ord, Structural)]
pub struct Duration {
    pub nanos: u128,
}

/// A point in time, as the span since the origin of the clock.
#[derive(Clone, Copy, Debug, PartialEq, Eq, PartialOrd, Ord, Structural)]
pub struct Instant {
    pub nanos: u128,
}

impl Duration {
    pub fn zero() -> (d: Duration)
        ensures
            d.nanos == 0,
    {
        Duration { nanos: 0 }
    }

    pub fn from_nanos(nanos: u128) -> (d: Duration)
        ensures
            d.nanos == nanos,
    {
        Duration { nanos }
    }

    pub fn from_millis(millis: u64) -> (d: Duration)
        ensures
            d.nanos == millis * 1_000_000,
    {
        Duration { nanos: millis as u128 * 1_000_000 }
    }

    pub fn is_zero(self) -> (zero: bool)
        ensures
            zero == (self.nanos == 0),
    {
        self.nanos == 0
    }
}

impl Instant {
    /// Whether `self` moved `d` ahead is still representable.
    pub open spec fn can_advance(self, d: Duration) -> bool {
        self.nanos + d.nanos <= u128::MAX
    }

    /// `self` moved `d` ahead.
    pub open spec fn spec_after(self, d: Duration) -> Instant {
        Instant { nanos: (self.nanos + d.nanos) as u128 }
    }

    /// The span from `earlier` to `self`, and no span at all where `earlier` is the later one.
    pub open spec fn spec_since(self, earlier: Instant) -> Duration {
        if earlier.nanos <= self.nanos {
            Duration { nanos: (self.nanos - earlier.nanos) as u128 }
        } else {
            Duration { nanos: 0 }
        }
    }

    pub fn from_nanos(nanos: u128) -> (t: Instant)
        ensures
            t.nanos == nanos,
    {
        Instant { nanos }
    }

    pub fn after(self, d: Duration) -> (t: Instant)
        requires
            self.can_advance(d),
        ensures
            t == self.spec_after(d),
            t.nanos == self.nanos + d.nanos,
    {
        Instant { nanos: self.nanos + d.nanos }
    }

    pub fn duration_since(self, earlier: Instant) -> (d: Duration)
        ensures
            d == self.spec_since(earlier),
    {
        if earlier.nanos <= self.nanos {
            Duration { nanos: self.nanos - earlier.nanos }
        } else {
            Duration { nanos: 0 }
        }
    }

    /// Whether `self` comes strictly before `other`.
    pub fn before(self, other: Instant) -> (b: bool)
        ensures
            b == (self.nanos < other.nanos),
    {
        self.nanos < other.nanos
    }
}

/// A span moves a point in time ahead by its length, and the span between two points is what lies
/// between them, and nothing where the first is the later one.
pub proof fn law_points_and_spans(t: Instant, d: Duration, u: Instant)
    ensures
        t.nanos + d.nanos <= u128::MAX ==> t.spec_after(d).nanos == t.nanos + d.nanos
            && t.spec_after(d).spec_since(t) == d,
        t.nanos <= u.nanos ==> u.spec_since(t).nanos == u.nanos - t.nanos,
        u.nanos <= t.nanos ==> u.spec_since(t).nanos == 0,
{
}

} // verus!
