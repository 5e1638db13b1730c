use crate::growth::{clamped, Ratio};
use crate::wide::{whole, HALF};
use vstd::arithmetic::power::{lemma_pow0, lemma_pow_positive, pow};
use vstd::prelude::*;

verus! {

/// The mathematical model of a backoff: its configuration, in nanoseconds
/// and as an exact ratio, and the number of delays handed out since it was
/// made or last reset.
pub struct Schedule {
    /// The number of delays handed out since the start or the last reset.
    pub attempt: nat,
    /// The growth from one attempt to the next.
    pub factor: Ratio,
    /// Whether delays are drawn at random.
    pub jitter: bool,
    /// The least delay and the base of the growth, in nanoseconds.
    pub min: nat,
    /// The largest delay, in nanoseconds.
    pub max: nat,
}

impl Schedule {
    /// What every backoff's model satisfies: the factor is a number and the
    /// attempt counter fits in 64 bits.
    pub open spec fn is_valid(self) -> bool {
        self.factor.is_number() && self.attempt <= u64::MAX
    }

    /// The delay of `attempt` before it is brought between the bounds: the
    /// minimum times the factor to the power of the attempt, rounded down
    /// as [`Ratio::grown`] says.
    pub open spec fn raw(self, attempt: nat) -> nat {
        self.factor.grown(self.min, attempt)
    }

    /// The upper end of the range that jitter draws from: the raw delay, or
    /// the minimum where the raw delay lies below it.
    pub open spec fn peak(self, attempt: nat) -> nat {
        self.factor.peak(self.min, attempt)
    }

    /// The delay of `attempt` without jitter: the raw delay brought between
    /// the bounds.
    pub open spec fn delay(self, attempt: nat) -> nat {
        clamped(self.raw(attempt), self.min, self.max)
    }

    /// The least delay that is ever handed out: the minimum, cut at the
    /// maximum.
    pub open spec fn least(self) -> nat {
        clamped(self.min, self.min, self.max)
    }

    /// Whether `delay` may be handed out for `attempt`.
    ///
    /// Without jitter there is one such delay. With jitter it is any delay
    /// from the least one up to the delay that `attempt` has without jitter.
    pub open spec fn admits(self, attempt: nat, delay: nat) -> bool {
        if self.jitter {
            self.least() <= delay <= self.delay(attempt)
        } else {
            delay == self.delay(attempt)
        }
    }

    /// The model after one more delay was handed out. The counter starts
    /// over at zero after its largest value.
    pub open spec fn advanced(self) -> Schedule {
        Schedule {
            attempt: if self.attempt >= u64::MAX {
                0
            } else {
                self.attempt + 1
            },
            ..self
        }
    }

    /// The model after a reset: the counter is zero, the configuration is
    /// kept.
    pub open spec fn rewound(self) -> Schedule {
        Schedule { attempt: 0, ..self }
    }

    /// The model after `calls` delays were handed out.
    pub open spec fn advanced_by(self, calls: nat) -> Schedule
        decreases calls,
    {
        if calls == 0 {
            self
        } else {
            self.advanced_by((calls - 1) as nat).advanced()
        }
    }

    /// With a whole factor and without jitter, the delay of an attempt is
    /// the minimum times the factor to the power of the attempt, brought
    /// between the bounds, as far as that product fits in 128 bits.
    pub proof fn lemma_delay_is_power(self, attempt: nat)
        requires
            self.factor.denom == 1,
            self.factor.is_exact(self.min, attempt),
        ensures
            self.delay(attempt) == clamped(
                (self.min * pow(self.factor.numer as int, attempt)) as nat,
                self.min,
                self.max,
            ),
    {
        self.factor.lemma_whole_factor_is_power(self.min, attempt);
    }

    /// Without jitter and before the bounds, the delay of an attempt is the
    /// minimum times the factor to the power of the attempt:
    ///
    /// - never more than that product;
    /// - that product rounded down once, wherever the factor is at most one
    ///   or the minimum times the numerator to that power fits in 128 bits;
    /// - elsewhere less than one part in two to the power of 62 below that
    ///   product, whatever the attempt, unless it is two to the power of
    ///   128, which stands for all that is as large or larger.
    ///
    /// The claims are written without division, all sides times the
    /// denominator to the power of the attempt.
    pub proof fn lemma_raw_is_power(self, attempt: nat)
        requires
            self.factor.is_number(),
            attempt <= u64::MAX,
        ensures
            self.raw(attempt) * pow(self.factor.denom as int, attempt) <= self.min * pow(
                self.factor.numer as int,
                attempt,
            ),
            self.factor.is_exact(self.min, attempt) ==> self.min * pow(
                self.factor.numer as int,
                attempt,
            ) < (self.raw(attempt) + 1) * pow(self.factor.denom as int, attempt),
            self.raw(attempt) < whole() ==> self.min * pow(self.factor.numer as int, attempt) * (
            HALF - 2 * attempt) < (self.raw(attempt) + 1) * pow(
                self.factor.denom as int,
                attempt,
            ) * HALF,
    {
        self.factor.lemma_grown_at_most_power(self.min, attempt);
        self.factor.lemma_exact_rounds_once(self.min, attempt);
        if self.raw(attempt) < whole() {
            self.factor.lemma_grown_loses_little(self.min, attempt);
        }
    }

    /// With a factor above one the delay reaches the maximum and stays
    /// there: it is the maximum at every attempt for which the minimum
    /// times one and `attempt` times what the factor has above one is at
    /// least twice the maximum and two. The claim is written without
    /// division.
    pub proof fn lemma_delay_reaches_maximum(self, attempt: nat)
        requires
            0 < self.factor.denom < self.factor.numer,
            attempt <= u64::MAX,
            self.max <= u128::MAX,
            self.min * (self.factor.denom + attempt * (self.factor.numer - self.factor.denom))
                >= 2 * (self.max + 1) * self.factor.denom,
        ensures
            self.delay(attempt) == self.max,
    {
        let numer = self.factor.numer as int;
        let denom = self.factor.denom as int;
        let numer_power = pow(numer, attempt);
        let denom_power = pow(denom, attempt);
        let raw = self.raw(attempt) as int;
        let top = HALF as int;
        let min = self.min as int;
        let max = self.max as int;
        self.factor.lemma_power_grows(attempt);
        lemma_pow_positive(denom, attempt);
        lemma_pow_positive(numer, attempt);
        if raw < whole() {
            self.factor.lemma_grown_loses_little(self.min, attempt);
            let reach = denom + attempt * (numer - denom);
            assert(2 * (max + 1) * denom_power <= min * numer_power) by (nonlinear_arith)
                requires
                    denom_power * reach <= numer_power * denom,
                    min * reach >= 2 * (max + 1) * denom,
                    0 < denom,
                    0 < denom_power,
                    0 <= min,
                    0 < numer_power,
            {
                assert(min * (denom_power * reach) <= min * (numer_power * denom));
                assert(denom_power * (2 * (max + 1) * denom) <= denom_power * (min * reach));
                assert((2 * (max + 1) * denom_power) * denom <= (min * numer_power) * denom);
            }
            assert(max + 1 < raw + 1) by (nonlinear_arith)
                requires
                    min * numer_power * (top - 2 * attempt) < (raw + 1) * denom_power * top,
                    2 * (max + 1) * denom_power <= min * numer_power,
                    top <= 2 * (top - 2 * attempt),
                    0 < top - 2 * attempt,
                    0 < denom_power,
                    0 <= max,
                    0 <= raw,
            {
                assert((2 * (max + 1) * denom_power) * (top - 2 * attempt) <= (min * numer_power)
                    * (top - 2 * attempt));
                assert(((max + 1) * denom_power) * top <= ((max + 1) * denom_power) * (2 * (top
                    - 2 * attempt)));
                assert(((max + 1) * denom_power) * top < ((raw + 1) * denom_power) * top);
            }
        }
    }

    /// With a factor of at least one and without jitter, a later attempt
    /// never waits less than an earlier one, as far as the delays are
    /// exact.
    pub proof fn lemma_delay_monotonic(self, earlier: nat, later: nat)
        requires
            self.factor.is_number(),
            self.factor.numer >= self.factor.denom,
            self.factor.is_exact(self.min, later),
            earlier <= later,
        ensures
            self.delay(earlier) <= self.delay(later),
    {
        self.factor.lemma_grown_monotonic(self.min, earlier, later);
    }

    /// Every delay that is handed out, with or without jitter, is at most
    /// the maximum, at least the least delay, and at most what the attempt
    /// has without jitter. Where the minimum does not exceed the maximum it
    /// is at least the minimum.
    pub proof fn lemma_admitted_is_bounded(self, attempt: nat, delay: nat)
        requires
            self.admits(attempt, delay),
        ensures
            delay <= self.max,
            self.least() <= delay <= self.delay(attempt),
            self.min <= self.max ==> self.min <= delay,
    {
    }

    /// The first delay after a reset is the least delay, with or without
    /// jitter: at attempt zero jitter has a single value to draw from.
    pub proof fn lemma_first_delay(self, delay: nat)
        requires
            self.admits(0, delay),
        ensures
            delay == self.least(),
    {
        lemma_pow0(self.factor.numer as int);
        lemma_pow0(self.factor.denom as int);
    }

    /// A reset of a backoff that was just reset changes nothing.
    pub proof fn lemma_rewound_twice(self)
        ensures
            self.rewound().rewound() == self.rewound(),
            self.attempt == 0 ==> self.rewound() == self,
    {
    }

    /// Handing out delays changes the counter only.
    pub proof fn lemma_advanced_keeps_configuration(self, calls: nat)
        ensures
            self.advanced_by(calls) == (Schedule {
                attempt: self.advanced_by(calls).attempt,
                ..self
            }),
        decreases calls,
    {
        if calls > 0 {
            self.lemma_advanced_keeps_configuration((calls - 1) as nat);
        }
    }

    /// After any number of delays, a reset brings back the very first one:
    /// the delay handed out next is the one that a backoff reset at once
    /// would hand out.
    pub proof fn lemma_reset_starts_over(self, calls: nat, first: nat, again: nat)
        requires
            self.rewound().admits(self.rewound().attempt, first),
            self.advanced_by(calls).rewound().admits(
                self.advanced_by(calls).rewound().attempt,
                again,
            ),
        ensures
            self.advanced_by(calls).rewound() == self.rewound(),
            again == first,
    {
        self.lemma_advanced_keeps_configuration(calls);
        self.rewound().lemma_first_delay(first);
        self.rewound().lemma_first_delay(again);
    }

    /// The counter only ever goes up between resets, by one with every
    /// delay handed out, as long as it fits in 64 bits: no attempt is left
    /// out and none comes twice.
    pub proof fn lemma_counter_advances(self, calls: nat)
        requires
            self.attempt + calls <= u64::MAX,
        ensures
            self.advanced_by(calls).attempt == self.attempt + calls,
        decreases calls,
    {
        if calls > 0 {
            self.lemma_counter_advances((calls - 1) as nat);
        }
    }

    /// Without jitter, the delay asked for attempt `calls` directly is the
    /// delay that the call with index `calls` after a reset hands out.
    pub proof fn lemma_direct_agrees_with_sequence(self, calls: nat, direct: nat, in_turn: nat)
        requires
            !self.jitter,
            calls <= u64::MAX,
            self.admits(calls, direct),
            self.rewound().advanced_by(calls).admits(
                self.rewound().advanced_by(calls).attempt,
                in_turn,
            ),
        ensures
            direct == in_turn,
    {
        self.rewound().lemma_counter_advances(calls);
        self.rewound().lemma_advanced_keeps_configuration(calls);
    }
}

} // verus!
