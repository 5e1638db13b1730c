use crate::wide::{lemma_pow2_top, mul_wide, two_to, whole, HALF, LIMB};
use vstd::arithmetic::div_mod::{
    lemma_div_multiples_vanish_quotient, lemma_fundamental_div_mod,
    lemma_fundamental_div_mod_converse, lemma_hoist_over_denominator,
};
use vstd::arithmetic::power2::{lemma_pow2_adds, lemma_pow2_pos, pow2};
use vstd::prelude::*;

verus! {

/// The mathematical model of a [`Magnitude`]: the number
/// `mantissa * 2^exponent / 2^128`.
pub struct Measure {
    pub mantissa: nat,
    pub exponent: nat,
}

impl Measure {
    /// The mantissa fills its 128 bits and the number is at least one and
    /// less than two to the power of 128.
    pub open spec fn is_normal(self) -> bool {
        self.is_full() && self.exponent <= 128
    }

    /// The mantissa fills its 128 bits, its highest bit set, and the number
    /// is at least one.
    pub open spec fn is_full(self) -> bool {
        HALF <= self.mantissa < whole() && 1 <= self.exponent
    }

    /// `base` times the number, rounded down.
    pub open spec fn applied(self, base: nat) -> nat {
        (base * self.mantissa * pow2(self.exponent) / (whole() as nat)) as nat
    }
}

/// `numerator / 2^128` as a measure with exponent `exponent` counted in:
/// halved until it fits in 128 bits, every halving rounded down.
pub open spec fn normalized(numerator: nat, exponent: nat) -> Measure
    decreases numerator,
{
    if numerator < whole() {
        Measure { mantissa: numerator, exponent }
    } else {
        normalized(numerator / 2, exponent + 1)
    }
}

/// The largest measure that is at most `numer / denom`.
pub open spec fn measure_of(numer: nat, denom: nat) -> Measure {
    normalized((numer as int * whole() / (denom as int)) as nat, 0)
}

/// The product of two measures with the mantissa rounded down to 128 bits,
/// or `None` where a factor is `None` or the product is two to the power of
/// 128 or more. `None` stands for a number that large.
pub open spec fn product(left: Option<Measure>, right: Option<Measure>) -> Option<Measure> {
    match (left, right) {
        (Some(a), Some(b)) => {
            let exact = a.mantissa * b.mantissa;
            let exponent = a.exponent + b.exponent;
            if exact >= HALF * whole() {
                if exponent > 128 {
                    None
                } else {
                    Some(Measure { mantissa: (exact as int / whole()) as nat, exponent })
                }
            } else {
                if exponent > 129 {
                    None
                } else {
                    Some(
                        Measure {
                            mantissa: (exact as int / (HALF as int)) as nat,
                            exponent: (exponent - 1) as nat,
                        },
                    )
                }
            }
        },
        _ => None,
    }
}

/// `factor` to the power of `exponent`, for `exponent` of one and more, by
/// squaring: the power of half the exponent is squared and, where the
/// exponent is odd, multiplied by the factor once more.
pub open spec fn raised(factor: Measure, exponent: nat) -> Option<Measure>
    decreases exponent,
{
    if exponent <= 1 {
        Some(factor)
    } else {
        let half = raised(factor, exponent / 2);
        let square = product(half, half);
        if exponent % 2 == 1 {
            product(square, Some(factor))
        } else {
            square
        }
    }
}

/// A number of at least one with 128 bits of precision: a mantissa whose
/// highest bit is set and a power of two. Its view is the [`Measure`] it
/// stands for.
#[derive(Clone, Copy, Debug)]
pub struct Magnitude {
    mantissa: u128,
    exponent: u32,
}

impl View for Magnitude {
    type V = Measure;

    closed spec fn view(&self) -> Measure {
        Measure { mantissa: self.mantissa as nat, exponent: self.exponent as nat }
    }
}

/// The measure that `magnitude` stands for, if there is one.
pub open spec fn measure(magnitude: Option<Magnitude>) -> Option<Measure> {
    match magnitude {
        Some(m) => Some(m@),
        None => None,
    }
}

impl Magnitude {
    /// What holds of every `Magnitude`: its measure is normal.
    #[verifier::type_invariant]
    pub open spec fn is_valid(self) -> bool {
        self@.is_normal()
    }

    /// The largest magnitude that is at most `numer / denom`, for ratios
    /// above one; `None` for all others.
    pub fn of_ratio(numer: u64, denom: u64) -> (result: Option<Magnitude>)
        ensures
            result is Some <==> 0 < denom < numer,
            result matches Some(magnitude) ==> magnitude@ == measure_of(
                numer as nat,
                denom as nat,
            ),
    {
        if denom == 0 || denom >= numer {
            return None;
        }
        let wide: u128 = numer as u128 * LIMB;
        let divisor: u128 = denom as u128;
        let first: u128 = wide / divisor;
        let rest: u128 = wide % divisor;
        let second: u128 = rest * LIMB / divisor;
        let ghost quotient: nat = (numer as int * whole() / (denom as int)) as nat;
        proof {
            let carried = (rest * LIMB) % (divisor as int);
            lemma_fundamental_div_mod(wide as int, divisor as int);
            lemma_fundamental_div_mod(rest * LIMB, divisor as int);
            vstd::arithmetic::power2::lemma2_to64();
            assert(numer * whole() == (first * LIMB + second) * divisor + carried)
                by (nonlinear_arith)
                requires
                    wide == numer * LIMB,
                    wide == divisor * first + rest,
                    rest * LIMB == divisor * second + carried,
                    whole() == LIMB * LIMB,
            ;
            lemma_fundamental_div_mod_converse(
                numer * whole(),
                denom as int,
                first * LIMB + second,
                carried,
            );
            assert(first >= LIMB) by (nonlinear_arith)
                requires
                    wide == divisor * first + rest,
                    rest < divisor,
                    wide == numer * LIMB,
                    divisor < numer,
                    LIMB == 0x1_0000_0000_0000_0000,
            ;
            assert(second < LIMB) by (nonlinear_arith)
                requires
                    rest * LIMB == divisor * second + carried,
                    0 <= carried,
                    rest < divisor,
            ;
        }
        let mut high: u128 = first;
        let mut low: u128 = second;
        let mut exponent: u32 = 0;
        while high >= LIMB
            invariant
                low < LIMB,
                exponent <= 64,
                high * pow2(exponent as nat) < whole(),
                high * LIMB + low >= HALF,
                exponent == 0 ==> high >= LIMB,
                normalized(quotient, 0) == normalized(
                    (high * LIMB + low) as nat,
                    exponent as nat,
                ),
            decreases high,
        {
            proof {
                let power = pow2(exponent as nat);
                lemma_pow2_top();
                lemma_pow2_pos(exponent as nat);
                vstd::arithmetic::power2::lemma_pow2_unfold((exponent + 1) as nat);
                if exponent >= 64 {
                    assert(pow2(exponent as nat) == pow2(64)) by {
                        assert(exponent == 64);
                    }
                    assert(false) by (nonlinear_arith)
                        requires
                            high * power < whole(),
                            high >= LIMB,
                            power == LIMB,
                            whole() == LIMB * LIMB,
                    ;
                }
                assert((high / 2) * (2 * power) <= high * power) by (nonlinear_arith)
                    requires
                        0 <= power,
                        0 <= high,
                ;
            }
            low = (low + (high % 2) * LIMB) / 2;
            high = high / 2;
            exponent = exponent + 1;
        }
        Some(Magnitude { mantissa: high * LIMB + low, exponent })
    }

    /// The product of two magnitudes, rounded down to 128 bits, or `None`
    /// where it is two to the power of 128 or more.
    pub fn times(&self, other: &Magnitude) -> (result: Option<Magnitude>)
        ensures
            measure(result) == product(Some(self@), Some(other@)),
    {
        proof {
            use_type_invariant(self);
            use_type_invariant(other);
        }
        let (high, low) = mul_wide(self.mantissa, other.mantissa);
        let exponent: u32 = self.exponent + other.exponent;
        let ghost exact = self.mantissa * other.mantissa;
        assert(exact >= HALF * HALF) by (nonlinear_arith)
            requires
                exact == self.mantissa * other.mantissa,
                self.mantissa >= HALF,
                other.mantissa >= HALF,
        ;
        if high >= HALF {
            if exponent > 128 {
                None
            } else {
                Some(Magnitude { mantissa: high, exponent })
            }
        } else {
            if exponent > 129 {
                None
            } else {
                Some(Magnitude { mantissa: 2 * high + low / HALF, exponent: exponent - 1 })
            }
        }
    }

    /// The magnitude to the power of `exponent`, for `exponent` of one and
    /// more, or `None` where that is two to the power of 128 or more. Takes
    /// at most two products for every bit of `exponent`.
    pub fn raise(&self, exponent: u64) -> (result: Option<Magnitude>)
        ensures
            measure(result) == raised(self@, exponent as nat),
        decreases exponent,
    {
        if exponent <= 1 {
            return Some(*self);
        }
        let square = match self.raise(exponent / 2) {
            None => None,
            Some(half) => half.times(&half),
        };
        if exponent % 2 == 1 {
            match square {
                None => None,
                Some(even) => even.times(self),
            }
        } else {
            square
        }
    }

    /// `base` times the magnitude, rounded down, or `None` where that does
    /// not fit in 128 bits.
    pub fn apply(&self, base: u128) -> (result: Option<u128>)
        ensures
            match result {
                Some(value) => value == self@.applied(base as nat),
                None => self@.applied(base as nat) > u128::MAX,
            },
    {
        proof {
            use_type_invariant(self);
            lemma_pow2_top();
        }
        let (high, low) = mul_wide(base, self.mantissa);
        let ghost exact = base * self.mantissa;
        if self.exponent == 128 {
            assert(exact * whole() / whole() == exact) by (nonlinear_arith)
                requires
                    whole() > 0,
            ;
            if high > 0 {
                None
            } else {
                Some(low)
            }
        } else {
            let up: u128 = two_to(self.exponent);
            let down: u128 = two_to(128 - self.exponent);
            proof {
                lemma_pow2_adds(self.exponent as nat, (128 - self.exponent) as nat);
                assert(exact * up == (low * up) + (high * up) * whole()) by (nonlinear_arith)
                    requires
                        exact == high * whole() + low,
                ;
                lemma_hoist_over_denominator(low * up, high * up, whole() as nat);
                lemma_div_multiples_vanish_quotient(up as int, low as int, down as int);
                assert(up * low == low * up && up * down == whole()) by (nonlinear_arith)
                    requires
                        up * down == whole(),
                ;
            }
            assert(self@.applied(base as nat) == high * up + low / down);
            match high.checked_mul(up) {
                None => None,
                Some(top) => top.checked_add(low / down),
            }
        }
    }
}

} // verus!
