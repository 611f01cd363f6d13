//! Spans of time on the server's clock.
use vstd::prelude::*;

verus! {

/// A span of time, to the nanosecond. The clock of a database is the span
/// since the Unix epoch.
#[derive(Clone, Copy, Debug, PartialEq, Eq, Structural)]
pub struct Duration {
    pub nanos: u128,
}

impl Duration {
    /// The span `self + other`, or the longest span where that is longer.
    pub open spec fn plus(self, other: Self) -> Self {
        if self.nanos + other.nanos <= u128::MAX {
            Self { nanos: (self.nanos + other.nanos) as u128 }
        } else {
            Self { nanos: u128::MAX }
        }
    }

    /// The span `self - other`, or zero where that is negative.
    pub open spec fn minus(self, other: Self) -> Self {
        if self.nanos >= other.nanos {
            Self { nanos: (self.nanos - other.nanos) as u128 }
        } else {
            Self { nanos: 0 }
        }
    }

    /// The shorter of two spans.
    pub open spec fn shorter(self, other: Self) -> Self {
        if self.nanos <= other.nanos {
            self
        } else {
            other
        }
    }

    pub open spec fn spec_millis(ms: u64) -> Self {
        Self { nanos: (ms * 1_000_000) as u128 }
    }

    pub fn from_nanos(nanos: u128) -> (r: Self)
        ensures
            r.nanos == nanos,
    {
        Self { nanos }
    }

    pub fn from_millis(ms: u64) -> (r: Self)
        ensures
            r == Self::spec_millis(ms),
            r.nanos == ms * 1_000_000,
    {
        Self { nanos: ms as u128 * 1_000_000 }
    }

    pub fn from_secs(secs: u64) -> (r: Self)
        ensures
            r.nanos == secs * 1_000_000_000,
    {
        Self { nanos: secs as u128 * 1_000_000_000 }
    }

    pub fn as_nanos(&self) -> (r: u128)
        ensures
            r == self.nanos,
    {
        self.nanos
    }

    pub fn as_millis(&self) -> (r: u128)
        ensures
            r == self.nanos / 1_000_000,
    {
        self.nanos / 1_000_000
    }

    pub fn saturating_add(self, other: Self) -> (r: Self)
        ensures
            r == self.plus(other),
    {
        match self.nanos.checked_add(other.nanos) {
            Some(nanos) => Self { nanos },
            None => Self { nanos: u128::MAX },
        }
    }

    pub fn saturating_sub(self, other: Self) -> (r: Self)
        ensures
            r == self.minus(other),
    {
        if self.nanos >= other.nanos {
            Self { nanos: self.nanos - other.nanos }
        } else {
            Self { nanos: 0 }
        }
    }

    pub fn min(self, other: Self) -> (r: Self)
        ensures
            r == self.shorter(other),
    {
        if self.nanos <= other.nanos {
            self
        } else {
            other
        }
    }
}

/// The nearer of two deadlines, either of which may be absent.
pub open spec fn nearer(a: Option<Duration>, b: Option<Duration>) -> Option<Duration> {
    match (a, b) {
        (Some(x), Some(y)) => Some(x.shorter(y)),
        (Some(x), None) => Some(x),
        (None, y) => y,
    }
}

/// The nearer of two deadlines. An absent deadline never hides a present one.
pub fn nearest(a: Option<Duration>, b: Option<Duration>) -> (r: Option<Duration>)
    ensures
        r == nearer(a, b),
{
    match (a, b) {
        (Some(x), Some(y)) => Some(x.min(y)),
        (Some(x), None) => Some(x),
        (None, y) => y,
    }
}

/// Law: the nearer of two deadlines is one of them, no later than either, and
/// there is one as soon as either is there.
pub proof fn law_nearer_deadline(a: Option<Duration>, b: Option<Duration>)
    ensures
        nearer(a, b) is Some <==> a is Some || b is Some,
        nearer(a, b) == a || nearer(a, b) == b,
        a matches Some(x) ==> (nearer(a, b)->0).nanos <= x.nanos,
        b matches Some(y) ==> (nearer(a, b)->0).nanos <= y.nanos,
{
}

/// Law: spans add up and are taken from each other as numbers of nanoseconds, but
/// for what is too long or less than nothing; and a millisecond has a million of them.
pub proof fn law_spans(a: Duration, b: Duration, ms: u64)
    ensures
        a.nanos + b.nanos <= u128::MAX ==> a.plus(b).nanos == a.nanos + b.nanos,
        a.nanos + b.nanos > u128::MAX ==> a.plus(b).nanos == u128::MAX,
        b.nanos <= a.nanos ==> a.minus(b).nanos == a.nanos - b.nanos,
        b.nanos > a.nanos ==> a.minus(b).nanos == 0,
        Duration::spec_millis(ms).nanos == ms * 1_000_000,
        a.shorter(b).nanos <= a.nanos && a.shorter(b).nanos <= b.nanos,
        a.shorter(b) == a || a.shorter(b) == b,
{
}

} // verus!
