//! Points in time, and the clock that produces them.

use vstd::prelude::*;

verus! {

/// A point in time, in nanoseconds from an origin that the caller chose.
#[derive(Debug, Clone, Copy, PartialEq, Eq, Structural)]
pub struct Instant {
    pub nanos: u64,
}

/// The nanoseconds from `earlier` to `later`; none where `later` comes first.
pub open spec fn elapsed(later: Instant, earlier: Instant) -> nat {
    if later.nanos >= earlier.nanos {
        (later.nanos - earlier.nanos) as nat
    } else {
        0
    }
}

/// The point `nanos` after `start`, or the last representable one.
pub open spec fn later_by(start: Instant, nanos: nat) -> Instant {
    Instant {
        nanos: if start.nanos + nanos <= u64::MAX {
            (start.nanos + nanos) as u64
        } else {
            u64::MAX
        },
    }
}

impl Instant {
    /// The nanoseconds since `earlier`, zero where `earlier` is in the future.
    pub fn duration_since(self, earlier: Instant) -> (nanos: u64)
        ensures
            nanos == elapsed(self, earlier),
    {
        self.nanos.saturating_sub(earlier.nanos)
    }

    /// The point that many nanoseconds later, or the last representable one.
    pub fn after(self, nanos: u64) -> (at: Instant)
        ensures
            at == later_by(self, nanos as nat),
    {
        Instant { nanos: self.nanos.saturating_add(nanos) }
    }
}

/// The monotonic clock of the operating system, opaque here.
#[verifier::external_type_specification]
#[verifier::external_body]
pub struct ExStdInstant(std::time::Instant);

/// Calls `std::time::Instant::now`. Nothing is claimed of the reading.
#[verifier::external_body]
fn read_clock() -> (reading: std::time::Instant) {
    std::time::Instant::now()
}

/// Calls `std::time::Instant::elapsed` and counts the nanoseconds. Nothing is
/// claimed of the number: it depends on when the call is made.
#[verifier::external_body]
fn nanos_since(reading: &std::time::Instant) -> (nanos: u128) {
    reading.elapsed().as_nanos()
}

/// A running clock: it showed `base` when it was started.
#[derive(Debug)]
pub struct Clock {
    base: Instant,
    started: std::time::Instant,
}

impl Clock {
    /// What the clock showed when it was started.
    pub closed spec fn base(&self) -> Instant {
        self.base
    }

    /// Starts a clock that shows `base` now.
    pub fn start(base: Instant) -> (clock: Clock)
        ensures
            clock.base() == base,
    {
        Clock { base, started: read_clock() }
    }

    /// What the clock shows now: never a point before its start.
    pub fn now(&self) -> (at: Instant)
        ensures
            at.nanos >= self.base().nanos,
    {
        self.shown_after(nanos_since(&self.started))
    }

    /// What the clock shows once that many nanoseconds have gone by.
    pub fn shown_after(&self, nanos: u128) -> (at: Instant)
        ensures
            at == later_by(self.base(), nanos as nat),
    {
        let room: u64 = u64::MAX - self.base.nanos;
        if nanos <= room as u128 {
            Instant { nanos: self.base.nanos + nanos as u64 }
        } else {
            Instant { nanos: u64::MAX }
        }
    }
}

/// The time from a point to one that many nanoseconds later is just that many;
/// to a point that is not later it is none.
pub proof fn law_time_adds_up(start: Instant, nanos: nat, other: Instant)
    ensures
        start.nanos + nanos <= u64::MAX ==> elapsed(later_by(start, nanos), start) == nanos,
        start.nanos + nanos > u64::MAX ==> later_by(start, nanos).nanos == u64::MAX,
        other.nanos <= start.nanos ==> elapsed(other, start) == 0,
        other.nanos >= start.nanos ==> start.nanos + elapsed(other, start) == other.nanos,
{
}

} // verus!
