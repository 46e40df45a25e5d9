//! Durations and instants, as integer counts of nanoseconds.
//!
//! The view of either type is the count itself, a natural number, and that is what
//! every contract in this library speaks of.

use vstd::prelude::*;

verus! {

/// Nanoseconds in a second.
pub const NANOS_PER_SEC: u128 = 1_000_000_000;

/// The longest duration there is, in nanoseconds: `u64::MAX` seconds and the last
/// nanosecond before the next.
pub const MAX_NANOS: u128 = 18_446_744_073_709_551_615_999_999_999;

/// A span of time: whole seconds, and the nanoseconds on top of them.
#[derive(Clone, Copy, Debug, PartialEq, Eq, PartialOrd, Ord, Hash, Structural)]
pub struct Duration {
    pub secs: u64,
    pub nanos: u32,
}

impl View for Duration {
    type V = nat;

    open spec fn view(&self) -> nat {
        (self.secs * 1_000_000_000 + self.nanos) as nat
    }
}

impl Duration {
    /// The nanoseconds are less than a second, so that equal spans are equal values.
    pub open spec fn wf(self) -> bool {
        self.nanos < 1_000_000_000
    }

    /// The span of `n` nanoseconds.
    pub open spec fn of(n: nat) -> Duration {
        Duration { secs: (n / 1_000_000_000) as u64, nanos: (n % 1_000_000_000) as u32 }
    }

    /// No time at all.
    pub fn zero() -> (d: Duration)
        ensures
            d.wf(),
            d@ == 0,
            d == Duration::of(0),
    {
        Duration { secs: 0, nanos: 0 }
    }

    pub fn from_secs(secs: u64) -> (d: Duration)
        ensures
            d.wf(),
            d@ == secs * 1_000_000_000,
            d == Duration::of((secs * 1_000_000_000) as nat),
    {
        Duration { secs, nanos: 0 }
    }

    pub fn from_millis(millis: u64) -> (d: Duration)
        ensures
            d.wf(),
            d@ == millis * 1_000_000,
            d == Duration::of((millis * 1_000_000) as nat),
    {
        Duration { secs: millis / 1000, nanos: ((millis % 1000) * 1_000_000) as u32 }
    }

    pub fn from_micros(micros: u64) -> (d: Duration)
        ensures
            d.wf(),
            d@ == micros * 1000,
            d == Duration::of((micros * 1000) as nat),
    {
        Duration { secs: micros / 1_000_000, nanos: ((micros % 1_000_000) * 1000) as u32 }
    }

    pub fn from_nanos(nanos: u64) -> (d: Duration)
        ensures
            d.wf(),
            d@ == nanos,
            d == Duration::of(nanos as nat),
    {
        Duration { secs: nanos / 1_000_000_000, nanos: (nanos % 1_000_000_000) as u32 }
    }

    /// The span of a count of nanoseconds too wide for [`Duration::from_nanos`].
    pub fn from_nanos_u128(nanos: u128) -> (d: Duration)
        requires
            nanos <= MAX_NANOS,
        ensures
            d.wf(),
            d@ == nanos,
            d == Duration::of(nanos as nat),
    {
        Duration { secs: (nanos / NANOS_PER_SEC) as u64, nanos: (nanos % NANOS_PER_SEC) as u32 }
    }

    pub fn as_secs(&self) -> (secs: u64)
        requires
            self.wf(),
        ensures
            secs == self@ / 1_000_000_000,
    {
        self.secs
    }

    pub fn as_millis(&self) -> (millis: u128)
        ensures
            millis == self@ / 1_000_000,
    {
        self.as_nanos() / 1_000_000
    }

    pub fn as_micros(&self) -> (micros: u128)
        ensures
            micros == self@ / 1000,
    {
        self.as_nanos() / 1000
    }

    pub fn as_nanos(&self) -> (nanos: u128)
        ensures
            nanos == self@,
            nanos <= 0x1_0000_0000_0000_0000_0000_0000,
            self.wf() ==> nanos <= MAX_NANOS,
    {
        self.secs as u128 * NANOS_PER_SEC + self.nanos as u128
    }

    /// What is left of this after `other`, and nothing where `other` is the longer.
    pub fn saturating_sub(self, other: Duration) -> (d: Duration)
        requires
            self.wf(),
        ensures
            d.wf(),
            d@ == (if self@ >= other@ {
                self@ - other@
            } else {
                0
            }),
    {
        let a: u128 = self.as_nanos();
        let b: u128 = other.as_nanos();
        if a >= b {
            Duration::from_nanos_u128(a - b)
        } else {
            Duration::zero()
        }
    }

    /// The two together, or nothing where that is longer than a duration can be.
    pub fn checked_add(self, other: Duration) -> (d: Option<Duration>)
        ensures
            match d {
                Some(d) => d.wf() && d@ == self@ + other@ && self@ + other@ <= MAX_NANOS,
                None => self@ + other@ > MAX_NANOS,
            },
    {
        let total: u128 = self.as_nanos() + other.as_nanos();
        if total <= MAX_NANOS {
            Some(Duration::from_nanos_u128(total))
        } else {
            None
        }
    }

    /// How far apart the two are.
    pub fn abs_diff(self, other: Duration) -> (d: Duration)
        requires
            self.wf(),
            other.wf(),
        ensures
            d.wf(),
            d@ == (if self@ >= other@ {
                self@ - other@
            } else {
                other@ - self@
            }),
    {
        if self.as_nanos() >= other.as_nanos() {
            self.saturating_sub(other)
        } else {
            other.saturating_sub(self)
        }
    }
}

/// A moment on the host's monotonic clock, as the time since an origin that the
/// program picks when it starts.
#[derive(Clone, Copy, Debug, PartialEq, Eq, PartialOrd, Ord, Hash, Structural)]
pub struct Instant {
    pub since_origin: Duration,
}

impl View for Instant {
    type V = nat;

    open spec fn view(&self) -> nat {
        self.since_origin@
    }
}

impl Instant {
    pub open spec fn wf(self) -> bool {
        self.since_origin.wf()
    }

    /// The moment that long after the origin.
    pub fn after(since_origin: Duration) -> (at: Instant)
        ensures
            at.since_origin == since_origin,
            at@ == since_origin@,
    {
        Instant { since_origin }
    }

    /// Nanoseconds since the origin.
    pub fn as_nanos(&self) -> (nanos: u128)
        ensures
            nanos == self@,
            nanos <= 0x1_0000_0000_0000_0000_0000_0000,
            self.wf() ==> nanos <= MAX_NANOS,
    {
        self.since_origin.as_nanos()
    }

    /// How long after `earlier` this is, and no time at all where it is before.
    pub fn saturating_duration_since(&self, earlier: Instant) -> (d: Duration)
        requires
            self.wf(),
        ensures
            d.wf(),
            d@ == (if self@ >= earlier@ {
                self@ - earlier@
            } else {
                0
            }),
    {
        self.since_origin.saturating_sub(earlier.since_origin)
    }

    /// The moment that much later, or nothing where no instant can say it.
    pub fn checked_add(&self, d: Duration) -> (at: Option<Instant>)
        ensures
            match at {
                Some(at) => at.wf() && at@ == self@ + d@ && self@ + d@ <= MAX_NANOS,
                None => self@ + d@ > MAX_NANOS,
            },
    {
        match self.since_origin.checked_add(d) {
            Some(since_origin) => Some(Instant { since_origin }),
            None => None,
        }
    }

    /// The moment that much earlier, or nothing where that is before the origin.
    pub fn checked_sub(&self, d: Duration) -> (at: Option<Instant>)
        requires
            self.wf(),
        ensures
            match at {
                Some(at) => at.wf() && at@ + d@ == self@,
                None => self@ < d@,
            },
    {
        if self.as_nanos() < d.as_nanos() {
            None
        } else {
            Some(Instant { since_origin: self.since_origin.saturating_sub(d) })
        }
    }
}

/// Two durations of the same length are the same value.
pub proof fn equal_spans_are_equal_values(a: Duration, b: Duration)
    requires
        a.wf(),
        b.wf(),
        a@ == b@,
    ensures
        a == b,
{
}

/// [`Duration::of`] undoes the view.
pub proof fn of_undoes_the_view(d: Duration, n: nat)
    ensures
        d.wf() ==> Duration::of(d@) == d,
        n <= MAX_NANOS ==> Duration::of(n)@ == n && Duration::of(n).wf(),
{
}

} // verus!
