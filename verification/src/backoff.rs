use crate::delay::{saturated, Delay};
use crate::factor::Factor;
use crate::growth::{clamped, Ratio};
use crate::jitter::uniform_between;
use crate::schedule::Schedule;
use vstd::prelude::*;

verus! {

/// Delays for retrying an operation, growing by a constant factor from one
/// attempt to the next between a minimum and a maximum.
///
/// A `Backoff` counts the delays it has handed out. Its view is the
/// [`Schedule`] that holds its configuration and that count. A clone
/// starts with the count of the backoff it was made of and counts on by
/// itself.
#[derive(Debug)]
pub struct Backoff {
    attempt: u64,
    factor: Factor,
    jitter: bool,
    min: Delay,
    max: Delay,
}

impl View for Backoff {
    type V = Schedule;

    closed spec fn view(&self) -> Schedule {
        Schedule {
            attempt: self.attempt as nat,
            factor: self.factor@,
            jitter: self.jitter,
            min: self.min@,
            max: self.max@,
        }
    }
}

impl Clone for Backoff {
    fn clone(&self) -> (copy: Self)
        ensures
            copy@ == self@,
    {
        proof {
            use_type_invariant(self);
        }
        Backoff {
            attempt: self.attempt,
            factor: self.factor,
            jitter: self.jitter,
            min: self.min,
            max: self.max,
        }
    }
}

impl Backoff {
    /// What holds of every `Backoff`: its schedule is valid. This is the
    /// type's invariant, so `use_type_invariant` gives it for any backoff at
    /// hand.
    #[verifier::type_invariant]
    pub open spec fn is_valid(self) -> bool {
        self@.is_valid()
    }

    /// A backoff that doubles its delay with every attempt, from 100
    /// milliseconds up to 10 seconds, without jitter.
    pub fn new() -> (backoff: Self)
        ensures
            backoff@ == (Schedule {
                attempt: 0,
                factor: Ratio { numer: 2, denom: 1 },
                jitter: false,
                min: 100_000_000,
                max: 10_000_000_000,
            }),
    {
        Backoff {
            attempt: 0,
            factor: Factor::whole(2),
            jitter: false,
            min: Delay::from_millis(100),
            max: Delay::from_secs(10),
        }
    }

    /// The peak of `attempt`: the minimum times the factor to the power of
    /// `attempt`, at least the minimum, and cut at the largest delay there
    /// is. It is the upper end of the range that jitter draws from.
    pub fn peak_for_attempt(&self, attempt: u64) -> (peak: Delay)
        ensures
            peak@ == saturated(self@.peak(attempt as nat)),
    {
        match self.factor.grow(self.min.as_nanos(), attempt) {
            Some(nanos) => Delay::from_nanos(nanos),
            None => Delay::from_nanos(u128::MAX),
        }
    }

    /// `delay` brought between the bounds: raised to the minimum, then cut
    /// at the maximum.
    pub fn clamp(&self, delay: Delay) -> (bounded: Delay)
        ensures
            bounded@ == clamped(delay@, self@.min, self@.max),
    {
        let raised = if delay.as_nanos() < self.min.as_nanos() {
            self.min
        } else {
            delay
        };
        if raised.as_nanos() > self.max.as_nanos() {
            self.max
        } else {
            raised
        }
    }

    /// The delay before the retry that follows attempt number `attempt`,
    /// counted from zero. The counter is neither read nor changed.
    ///
    /// Without jitter this is the delay that the schedule gives the attempt.
    /// With jitter it is drawn at random between the minimum and the
    /// attempt's peak and then brought between the bounds.
    pub fn duration_for_attempt(&self, attempt: u64) -> (delay: Delay)
        ensures
            self@.admits(attempt as nat, delay@),
            delay@ <= self@.max,
            self@.min <= self@.max ==> self@.min <= delay@,
    {
        let peak = self.peak_for_attempt(attempt);
        let drawn = if self.jitter {
            Delay::from_nanos(uniform_between(self.min.as_nanos(), peak.as_nanos()))
        } else {
            peak
        };
        self.clamp(drawn)
    }

    /// The delay before the next retry. Counts the call: the first call
    /// after `new` or `reset` is attempt zero.
    pub fn next_duration(&mut self) -> (delay: Delay)
        ensures
            final(self)@ == old(self)@.advanced(),
            old(self)@.admits(old(self)@.attempt, delay@),
            delay@ <= old(self)@.max,
            old(self)@.min <= old(self)@.max ==> old(self)@.min <= delay@,
    {
        proof {
            use_type_invariant(&*self);
        }
        let attempt = self.attempt;
        self.attempt = if attempt == u64::MAX {
            0
        } else {
            attempt + 1
        };
        self.duration_for_attempt(attempt)
    }

    /// The number of delays handed out by `next_duration` since `new` or the
    /// last `reset`.
    pub fn current_attempt(&self) -> (attempt: u64)
        ensures
            attempt == self@.attempt,
    {
        self.attempt
    }

    /// Starts counting at zero again. The configuration is kept.
    pub fn reset(&mut self)
        ensures
            final(self)@ == old(self)@.rewound(),
    {
        proof {
            use_type_invariant(&*self);
        }
        self.attempt = 0;
    }

    /// The same backoff with `min` as the least delay and the base of the
    /// growth.
    pub fn with_min(self, min: Delay) -> (backoff: Self)
        ensures
            backoff@ == (Schedule { min: min@, ..self@ }),
    {
        proof {
            use_type_invariant(&self);
        }
        let mut backoff = self;
        backoff.min = min;
        backoff
    }

    /// The same backoff with `max` as the largest delay.
    pub fn with_max(self, max: Delay) -> (backoff: Self)
        ensures
            backoff@ == (Schedule { max: max@, ..self@ }),
    {
        proof {
            use_type_invariant(&self);
        }
        let mut backoff = self;
        backoff.max = max;
        backoff
    }

    /// The same backoff with jitter switched on or off.
    pub fn with_jitter(self, jitter: bool) -> (backoff: Self)
        ensures
            backoff@ == (Schedule { jitter, ..self@ }),
    {
        proof {
            use_type_invariant(&self);
        }
        let mut backoff = self;
        backoff.jitter = jitter;
        backoff
    }

    /// The same backoff with `factor` as the growth from one attempt to the
    /// next.
    pub fn with_factor(self, factor: Factor) -> (backoff: Self)
        ensures
            backoff@ == (Schedule { factor: factor@, ..self@ }),
    {
        proof {
            use_type_invariant(&self);
            use_type_invariant(&factor);
        }
        let mut backoff = self;
        backoff.factor = factor;
        backoff
    }
}

} // verus!
