use crate::growth::{lemma_pow_ordered, Ratio};
use crate::magnitude::Magnitude;
use crate::wide::{lemma_pow2_top, whole};
use vstd::arithmetic::power::{
    lemma0_pow, lemma1_pow, lemma_pow0, lemma_pow_increases, lemma_pow_positive, pow,
};
use vstd::arithmetic::power2::lemma_pow2;
use vstd::prelude::*;

verus! {

/// The factor by which the delay grows from one attempt to the next, held as
/// a ratio of two whole numbers.
///
/// Its view is the [`Ratio`] it stands for. The denominator of a `Factor` is
/// never zero.
#[derive(Clone, Copy, Debug)]
pub struct Factor {
    numer: u64,
    denom: u64,
}

impl View for Factor {
    type V = Ratio;

    closed spec fn view(&self) -> Ratio {
        Ratio { numer: self.numer as nat, denom: self.denom as nat }
    }
}

impl Factor {
    /// What holds of every `Factor`: it stands for a number. This is the
    /// type's invariant, so `use_type_invariant` gives it for any factor at
    /// hand.
    #[verifier::type_invariant]
    pub open spec fn is_valid(self) -> bool {
        self@.is_number()
    }

    /// The factor `times / 1`.
    pub fn whole(times: u64) -> (factor: Factor)
        ensures
            factor@ == (Ratio { numer: times as nat, denom: 1 }),
    {
        Factor { numer: times, denom: 1 }
    }

    /// The factor `numer / denom`, or `None` where `denom` is zero.
    pub fn ratio(numer: u64, denom: u64) -> (factor: Option<Factor>)
        ensures
            denom == 0 <==> factor is None,
            factor matches Some(f) ==> f@ == (Ratio { numer: numer as nat, denom: denom as nat }),
    {
        if denom == 0 {
            None
        } else {
            Some(Factor { numer, denom })
        }
    }

    /// The numerator.
    pub fn numer(&self) -> (numer: u64)
        ensures
            numer == self@.numer,
    {
        self.numer
    }

    /// The denominator, which is never zero.
    pub fn denom(&self) -> (denom: u64)
        ensures
            denom == self@.denom,
            denom > 0,
    {
        proof {
            use_type_invariant(self);
        }
        self.denom
    }

    /// `base` times the factor to the power of `attempt`, rounded down, but
    /// at least `base`; `None` where that does not fit in 128 bits.
    ///
    /// The power is exact wherever `base` times the numerator to the power
    /// of `attempt` fits in 128 bits, which takes at most 128 products to
    /// find out. Elsewhere it is raised by squaring with 128 bits of
    /// precision, in at most two products for every bit of `attempt`.
    pub fn grow(&self, base: u128, attempt: u64) -> (result: Option<u128>)
        ensures
            match result {
                Some(value) => value == self@.peak(base as nat, attempt as nat),
                None => self@.peak(base as nat, attempt as nat) > u128::MAX,
            },
    {
        proof {
            use_type_invariant(self);
        }
        let ghost ratio = self@;
        if self.numer <= self.denom {
            proof {
                ratio.lemma_grown_shrinks(base as nat, attempt as nat);
            }
            return Some(base);
        }
        if base == 0 || attempt == 0 {
            proof {
                lemma_pow0(self.numer as int);
                lemma_pow0(self.denom as int);
                lemma_pow_positive(self.denom as int, attempt as nat);
                ratio.lemma_exact_rounds_once(base as nat, attempt as nat);
                let exact = ratio.exact(base as nat, attempt as nat);
                let numer_power = pow(self.numer as int, attempt as nat);
                let denom_power = pow(self.denom as int, attempt as nat);
                if attempt != 0 {
                    assert(base * numer_power == 0) by (nonlinear_arith)
                        requires
                            base == 0,
                    ;
                    assert(exact == 0) by (nonlinear_arith)
                        requires
                            exact * denom_power <= 0,
                            0 < denom_power,
                            0 <= exact,
                    ;
                }
            }
            return Some(base);
        }
        let product: Option<u128> = match power_within(self.numer, attempt) {
            None => None,
            Some(power) => base.checked_mul(power),
        };
        proof {
            let numer_power = pow(self.numer as int, attempt as nat);
            lemma_pow_positive(self.numer as int, attempt as nat);
            assert(numer_power <= base * numer_power) by (nonlinear_arith)
                requires
                    1 <= base,
                    0 < numer_power,
            ;
        }
        match product {
            Some(scaled) => {
                proof {
                    lemma_pow_ordered(self.denom as int, self.numer as int, attempt as nat);
                    lemma_pow_positive(self.denom as int, attempt as nat);
                    ratio.lemma_exact_monotonic(base as nat, 0, attempt as nat);
                    ratio.lemma_grown_at_most_power(base as nat, attempt as nat);
                }
                match power_within(self.denom, attempt) {
                    Some(divisor) => Some(scaled / divisor),
                    None => None,
                }
            },
            None => {
                assert(!ratio.is_exact(base as nat, attempt as nat));
                let power = match Magnitude::of_ratio(self.numer, self.denom) {
                    Some(start) => start.raise(attempt),
                    None => None,
                };
                let grown = match power {
                    Some(reached) => reached.apply(base),
                    None => None,
                };
                match grown {
                    Some(value) => if value < base {
                        Some(base)
                    } else {
                        Some(value)
                    },
                    None => None,
                }
            },
        }
    }
}

/// `base` to the power of `exponent`, or `None` where that does not fit in
/// 128 bits. For a base of two and more this takes at most 128 products.
pub fn power_within(base: u64, exponent: u64) -> (power: Option<u128>)
    ensures
        match power {
            Some(value) => value == pow(base as int, exponent as nat),
            None => pow(base as int, exponent as nat) > u128::MAX,
        },
{
    if exponent == 0 {
        proof {
            lemma_pow0(base as int);
        }
        return Some(1);
    }
    if base == 0 {
        proof {
            lemma0_pow(exponent as nat);
        }
        return Some(0);
    }
    if base == 1 {
        proof {
            lemma1_pow(exponent as nat);
        }
        return Some(1);
    }
    let mut reached: u128 = 1;
    let mut done: u64 = 0;
    proof {
        lemma_pow0(base as int);
        lemma_pow0(2);
    }
    while done < exponent
        invariant
            done <= exponent,
            2 <= base,
            reached == pow(base as int, done as nat),
            pow(2, done as nat) <= reached,
            done <= 128,
        decreases exponent - done,
    {
        proof {
            reveal(pow);
            lemma_pow2_top();
            lemma_pow2(128);
            lemma_pow_positive(2, done as nat);
            let before = pow(2, done as nat);
            if done == 128 {
                assert(before == whole());
                assert(false);
            }
            assert(pow(2, (done + 1) as nat) == 2 * before);
            assert(pow(base as int, (done + 1) as nat) == base * reached);
            assert(2 * before <= base * reached) by (nonlinear_arith)
                requires
                    2 <= base,
                    0 <= before <= reached,
            ;
        }
        match reached.checked_mul(base as u128) {
            None => {
                proof {
                    lemma_pow_increases(base as nat, (done + 1) as nat, exponent as nat);
                }
                return None;
            },
            Some(next) => {
                reached = next;
                done = done + 1;
            },
        }
    }
    Some(reached)
}

} // verus!
