use vstd::prelude::*;

verus! {

/// Nanoseconds in one second.
pub const NANOS_PER_SEC: u64 = 1_000_000_000;

/// A timestamp: whole seconds plus nanoseconds. Two stamps are ordered by the
/// total number of nanoseconds they denote.
#[derive(Clone, Copy, Debug)]
pub struct Time {
    pub sec: u32,
    pub nsec: u32,
}

impl Time {
    /// The total number of nanoseconds this stamp denotes.
    pub open spec fn nanos(self) -> int {
        self.sec as int * NANOS_PER_SEC as int + self.nsec as int
    }

    pub fn new(sec: u32, nsec: u32) -> (r: Time)
        ensures
            r.sec == sec,
            r.nsec == nsec,
    {
        Time { sec, nsec }
    }

    /// Returns the total number of nanoseconds; it always fits in a `u64`.
    pub fn to_nanos(&self) -> (r: u64)
        ensures
            r == self.nanos(),
    {
        let sec = self.sec as u64;
        assert(sec * NANOS_PER_SEC <= 0xffff_ffffu64 * NANOS_PER_SEC) by (nonlinear_arith)
            requires
                sec <= 0xffff_ffffu64,
        ;
        sec * NANOS_PER_SEC + self.nsec as u64
    }
}

} // verus!
