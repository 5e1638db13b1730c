use vstd::prelude::*;

verus! {

/// Nanoseconds in a millisecond.
pub const NANOS_PER_MILLI: u128 = 1_000_000;

/// Nanoseconds in a second.
pub const NANOS_PER_SEC: u128 = 1_000_000_000;

/// A span of time in whole nanoseconds.
///
/// Its view is the number of nanoseconds as a natural number.
#[derive(Clone, Copy, Debug, PartialEq, Eq, PartialOrd, Ord, Hash, Structural)]
pub struct Delay {
    pub nanos: u128,
}

impl View for Delay {
    type V = nat;

    open spec fn view(&self) -> nat {
        self.nanos as nat
    }
}

/// `nanos`, or the number of nanoseconds in the longest [`Delay`] where
/// `nanos` is larger than that.
pub open spec fn saturated(nanos: nat) -> nat {
    if nanos > u128::MAX {
        u128::MAX as nat
    } else {
        nanos
    }
}

impl Delay {
    /// The span of `nanos` nanoseconds.
    pub fn from_nanos(nanos: u128) -> (delay: Delay)
        ensures
            delay@ == nanos,
    {
        Delay { nanos }
    }

    /// The span of `millis` milliseconds.
    pub fn from_millis(millis: u64) -> (delay: Delay)
        ensures
            delay@ == millis * NANOS_PER_MILLI,
    {
        Delay { nanos: millis as u128 * NANOS_PER_MILLI }
    }

    /// The span of `secs` seconds.
    pub fn from_secs(secs: u64) -> (delay: Delay)
        ensures
            delay@ == secs * NANOS_PER_SEC,
    {
        Delay { nanos: secs as u128 * NANOS_PER_SEC }
    }

    /// The number of nanoseconds in the span.
    pub fn as_nanos(&self) -> (nanos: u128)
        ensures
            nanos == self@,
    {
        self.nanos
    }
}

} // verus!
