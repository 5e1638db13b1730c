use crate::backoff::Backoff;
use crate::delay::Delay;
use crate::schedule::Schedule;
use std::sync::atomic::{AtomicU64, Ordering};
use vstd::prelude::*;

verus! {

/// A backoff for callers that retry side by side: all who hold a reference
/// to it draw their attempts from one counter.
///
/// The counter is an atomic integer, so every method takes `&self` and the
/// handle can be used from any number of threads at once. Each call of
/// `next_duration` takes an attempt of its own in one atomic step. What
/// other threads do between two calls is not known here, so the contracts
/// say which delay belongs to an attempt, not which attempt a call takes.
/// Configure the [`Backoff`] before it is handed to `new`.
#[derive(Debug)]
pub struct SharedBackoff {
    attempt: AtomicU64,
    backoff: Backoff,
}

impl View for SharedBackoff {
    type V = Schedule;

    /// The configuration of the backoff that the handle was made of, as a
    /// schedule whose count is zero: the shared counter is no part of the
    /// view.
    closed spec fn view(&self) -> Schedule {
        self.backoff@.rewound()
    }
}

impl SharedBackoff {
    /// A handle with the configuration of `backoff`, which counts on from
    /// where `backoff` stands.
    pub fn new(backoff: Backoff) -> (shared: Self)
        ensures
            shared@ == backoff@.rewound(),
    {
        SharedBackoff { attempt: AtomicU64::new(backoff.current_attempt()), backoff }
    }

    /// Adds one to the shared counter in one atomic step and returns what
    /// it held before. Other threads may have moved the counter since this
    /// thread last saw it, so nothing is claimed of the number.
    fn take_attempt(&self) -> u64 {
        self.attempt.fetch_add(1, Ordering::SeqCst)
    }

    /// The delay before the caller's next retry. Takes the next attempt off
    /// the shared counter: no two calls get the same one until the counter
    /// has run through all 64-bit numbers or was reset.
    pub fn next_duration(&self) -> (delay: Delay)
        ensures
            exists|attempt: nat| attempt <= u64::MAX && #[trigger] self@.admits(attempt, delay@),
            delay@ <= self@.max,
            self@.min <= self@.max ==> self@.min <= delay@,
    {
        let attempt = self.take_attempt();
        let delay = self.backoff.duration_for_attempt(attempt);
        assert(self@.admits(attempt as nat, delay@));
        delay
    }

    /// The delay that belongs to attempt number `attempt`, counted from
    /// zero. The shared counter is neither read nor changed.
    pub fn duration_for_attempt(&self, attempt: u64) -> (delay: Delay)
        ensures
            self@.admits(attempt as nat, delay@),
            delay@ <= self@.max,
            self@.min <= self@.max ==> self@.min <= delay@,
    {
        self.backoff.duration_for_attempt(attempt)
    }

    /// The number of attempts taken off the counter since the last reset, as
    /// it stood at some moment during the call. Other threads may take
    /// attempts or reset at any time, so nothing is claimed of the number.
    pub fn current_attempt(&self) -> u64 {
        self.attempt.load(Ordering::SeqCst)
    }

    /// Sets the shared counter to zero. The configuration is kept.
    pub fn reset(&self) {
        self.attempt.store(0, Ordering::SeqCst);
    }
}

} // verus!
