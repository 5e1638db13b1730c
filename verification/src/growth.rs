use crate::magnitude::{measure_of, normalized, product, raised, Measure};
use crate::wide::{lemma_pow2_top, whole, HALF};
use vstd::arithmetic::div_mod::lemma_fundamental_div_mod;
use vstd::arithmetic::power::{
    lemma1_pow, lemma_pow0, lemma_pow1, lemma_pow_adds, lemma_pow_positive, pow,
};
use vstd::arithmetic::power2::{
    lemma_pow2_adds, lemma_pow2_pos, lemma_pow2_strictly_increases, lemma_pow2_unfold, pow2,
};
use vstd::prelude::*;

verus! {

/// A growth factor as the ratio `numer / denom` of two natural numbers.
///
/// This is the mathematical value that a [`crate::factor::Factor`] stands
/// for. A ratio with `denom == 0` is no number; the lemmas below ask for
/// [`Ratio::is_number`] where they divide.
pub struct Ratio {
    pub numer: nat,
    pub denom: nat,
}

impl Ratio {
    /// The ratio is a number: its denominator is not zero.
    pub open spec fn is_number(self) -> bool {
        self.denom > 0
    }

    /// `base` times the ratio to the power of `attempt`, rounded down once,
    /// at the end.
    pub open spec fn exact(self, base: nat, attempt: nat) -> nat {
        (base * pow(self.numer as int, attempt) / pow(self.denom as int, attempt)) as nat
    }

    /// Where the grown delay is [`Self::exact`]: where the ratio is at most
    /// one, at attempt zero and for a base of zero, and wherever `base`
    /// times `numer` to the power of `attempt` fits in 128 bits.
    pub open spec fn is_exact(self, base: nat, attempt: nat) -> bool {
        ||| self.numer <= self.denom
        ||| base == 0
        ||| attempt == 0
        ||| base * pow(self.numer as int, attempt) <= u128::MAX
    }

    /// `base` times the ratio to the power of `attempt` as it is worked out
    /// with 128 bits of precision: the ratio is rounded down to a
    /// [`Measure`], raised by squaring with every product rounded down, and
    /// the product with `base` is rounded down. Two to the power of 128
    /// stands for all that is as large or larger.
    pub open spec fn approximate(self, base: nat, attempt: nat) -> nat {
        match raised(measure_of(self.numer, self.denom), attempt) {
            Some(power) => power.applied(base),
            None => whole() as nat,
        }
    }

    /// What `base` has grown to at `attempt`: `base` times the ratio to the
    /// power of `attempt`, rounded down once where [`Self::is_exact`] holds
    /// and worked out with 128 bits of precision elsewhere.
    pub open spec fn grown(self, base: nat, attempt: nat) -> nat {
        if self.is_exact(base, attempt) {
            self.exact(base, attempt)
        } else {
            self.approximate(base, attempt)
        }
    }

    /// The upper end of the range that jitter draws from: the grown delay,
    /// or the base where the grown delay lies below it.
    pub open spec fn peak(self, base: nat, attempt: nat) -> nat {
        if self.grown(base, attempt) < base {
            base
        } else {
            self.grown(base, attempt)
        }
    }

    /// Whether `power` is at most the ratio to the power of `attempt`.
    /// `None` stands for two to the power of 128.
    spec fn is_above(self, power: Option<Measure>, attempt: nat) -> bool {
        match power {
            Some(measure) => measure.mantissa * pow2(measure.exponent) * pow(
                self.denom as int,
                attempt,
            ) <= whole() * pow(self.numer as int, attempt),
            None => whole() * pow(self.denom as int, attempt) <= pow(self.numer as int, attempt),
        }
    }

    /// The exact delay is rounded down once: it is the largest whole number
    /// that is at most `base` times the ratio to the power of `attempt`.
    /// The claim is written without division, all sides times `denom` to
    /// that power.
    pub proof fn lemma_exact_rounds_once(self, base: nat, attempt: nat)
        requires
            self.is_number(),
        ensures
            self.exact(base, attempt) * pow(self.denom as int, attempt) <= base * pow(
                self.numer as int,
                attempt,
            ) < (self.exact(base, attempt) + 1) * pow(self.denom as int, attempt),
    {
        let numer_power = pow(self.numer as int, attempt);
        let denom_power = pow(self.denom as int, attempt);
        lemma_pow_positive(self.denom as int, attempt);
        lemma_pow_ordered(0, self.numer as int, attempt);
        let product = base * numer_power;
        assert(0 <= product) by (nonlinear_arith)
            requires
                product == base * numer_power,
                0 <= numer_power,
        ;
        let quotient = product / denom_power;
        lemma_fundamental_div_mod(product, denom_power);
        assert(0 <= quotient && quotient * denom_power <= product < (quotient + 1) * denom_power)
            by (nonlinear_arith)
            requires
                product == denom_power * quotient + product % denom_power,
                0 <= product % denom_power < denom_power,
                0 <= product,
        ;
    }

    /// With a whole factor the exact delay is the base times the factor to
    /// the power of the attempt.
    pub proof fn lemma_whole_factor_is_power(self, base: nat, attempt: nat)
        requires
            self.denom == 1,
        ensures
            self.exact(base, attempt) == base * pow(self.numer as int, attempt),
    {
        lemma1_pow(attempt);
        lemma_pow_ordered(0, self.numer as int, attempt);
        let numer_power = pow(self.numer as int, attempt);
        assert(0 <= base * numer_power) by (nonlinear_arith)
            requires
                0 <= numer_power,
        ;
    }

    /// With a ratio of at most one, no attempt's delay exceeds the base.
    pub proof fn lemma_grown_shrinks(self, base: nat, attempt: nat)
        requires
            self.is_number(),
            self.numer <= self.denom,
        ensures
            self.grown(base, attempt) <= base,
    {
        let numer_power = pow(self.numer as int, attempt);
        let denom_power = pow(self.denom as int, attempt);
        lemma_pow_ordered(self.numer as int, self.denom as int, attempt);
        lemma_pow_positive(self.denom as int, attempt);
        self.lemma_exact_rounds_once(base, attempt);
        let exact = self.exact(base, attempt);
        assert(exact <= base) by (nonlinear_arith)
            requires
                exact * denom_power <= base * numer_power,
                0 <= numer_power <= denom_power,
                0 < denom_power,
                0 <= base,
                0 <= exact,
        ;
    }

    /// With a ratio of at least one, exact delays never shrink from one
    /// attempt to a later one, and none is below the base.
    pub proof fn lemma_exact_monotonic(self, base: nat, earlier: nat, later: nat)
        requires
            self.is_number(),
            self.numer >= self.denom,
            earlier <= later,
        ensures
            base <= self.exact(base, earlier) <= self.exact(base, later),
    {
        let numer = self.numer as int;
        let denom = self.denom as int;
        let gap = (later - earlier) as nat;
        lemma_pow_adds(numer, earlier, gap);
        lemma_pow_adds(denom, earlier, gap);
        lemma_pow_ordered(denom, numer, gap);
        lemma_pow_ordered(denom, numer, earlier);
        lemma_pow_positive(denom, earlier);
        lemma_pow_positive(denom, gap);
        lemma_pow_positive(denom, later);
        self.lemma_exact_rounds_once(base, earlier);
        self.lemma_exact_rounds_once(base, later);
        let low = self.exact(base, earlier) as int;
        let high = self.exact(base, later) as int;
        let numer_early = pow(numer, earlier);
        let denom_early = pow(denom, earlier);
        let numer_gap = pow(numer, gap);
        let denom_gap = pow(denom, gap);
        assert(low < high + 1) by (nonlinear_arith)
            requires
                low * denom_early <= base * numer_early,
                base * (numer_early * numer_gap) < (high + 1) * (denom_early * denom_gap),
                0 < denom_gap <= numer_gap,
                0 < denom_early,
                0 <= low,
                0 <= high,
                0 <= base,
                0 <= numer_early,
        {
            assert((low * denom_early) * denom_gap <= (base * numer_early) * numer_gap);
            assert(low * (denom_early * denom_gap) < (high + 1) * (denom_early * denom_gap));
        }
        assert(base < low + 1) by (nonlinear_arith)
            requires
                base * numer_early < (low + 1) * denom_early,
                0 < denom_early <= numer_early,
                0 <= base,
                0 <= low,
        {
            assert(base * denom_early <= base * numer_early);
        }
    }

    /// Where a later attempt is exact, so is every earlier one.
    pub proof fn lemma_exact_before(self, base: nat, earlier: nat, later: nat)
        requires
            self.is_exact(base, later),
            earlier <= later,
        ensures
            self.is_exact(base, earlier),
    {
        if self.numer > self.denom && base > 0 && earlier > 0 {
            let numer = self.numer as int;
            let gap = (later - earlier) as nat;
            lemma_pow_adds(numer, earlier, gap);
            lemma_pow_positive(numer, gap);
            lemma_pow_positive(numer, earlier);
            let early = pow(numer, earlier);
            let rest = pow(numer, gap);
            assert(base * early <= base * (early * rest)) by (nonlinear_arith)
                requires
                    0 < rest,
                    0 < early,
                    0 <= base,
            ;
        }
    }

    /// With a ratio of at least one, grown delays never shrink from one
    /// attempt to a later one as far as they are exact.
    pub proof fn lemma_grown_monotonic(self, base: nat, earlier: nat, later: nat)
        requires
            self.is_number(),
            self.numer >= self.denom,
            self.is_exact(base, later),
            earlier <= later,
        ensures
            base <= self.grown(base, earlier) <= self.grown(base, later),
    {
        self.lemma_exact_before(base, earlier, later);
        self.lemma_exact_monotonic(base, earlier, later);
    }

    /// Rounding only ever loses: exact or not, the grown delay is at most
    /// `base` times the ratio to the power of `attempt`, or it is two to the
    /// power of 128. The claim is written without division, both sides
    /// times `denom` to the power of the attempt.
    pub proof fn lemma_grown_at_most_power(self, base: nat, attempt: nat)
        requires
            self.is_number(),
        ensures
            self.grown(base, attempt) * pow(self.denom as int, attempt) <= base * pow(
                self.numer as int,
                attempt,
            ),
    {
        let numer_power = pow(self.numer as int, attempt);
        let denom_power = pow(self.denom as int, attempt);
        if self.is_exact(base, attempt) {
            self.lemma_exact_rounds_once(base, attempt);
        } else {
            let start = measure_of(self.numer, self.denom);
            self.lemma_measure_is_above();
            self.lemma_raised_is_above(start, attempt);
            lemma_pow_positive(self.denom as int, attempt);
            match raised(start, attempt) {
                Some(power) => {
                    let size = power.mantissa * pow2(power.exponent);
                    let applied = power.applied(base);
                    lemma_fundamental_div_mod((base * power.mantissa * pow2(power.exponent)) as int, whole());
                    assert(applied * whole() <= base * size) by (nonlinear_arith)
                        requires
                            base * power.mantissa * pow2(power.exponent) == whole() * applied + (
                            base * power.mantissa * pow2(power.exponent)) as int % whole(),
                            0 <= (base * power.mantissa * pow2(power.exponent)) as int % whole(),
                            size == power.mantissa * pow2(power.exponent),
                    ;
                    assert(applied * denom_power <= base * numer_power) by (nonlinear_arith)
                        requires
                            applied * whole() <= base * size,
                            size * denom_power <= whole() * numer_power,
                            0 < whole(),
                            0 <= base,
                            0 <= denom_power,
                            0 <= applied,
                    {
                        assert((applied * whole()) * denom_power <= (base * size) * denom_power);
                        assert(base * (size * denom_power) <= base * (whole() * numer_power));
                    }
                },
                None => {
                    assert(whole() * denom_power <= base * numer_power) by (nonlinear_arith)
                        requires
                            whole() * denom_power <= numer_power,
                            1 <= base,
                            0 <= numer_power,
                    ;
                },
            }
        }
    }

    /// Whether the ratio to the power of `attempt` is at most `power` and
    /// what `2 * attempt - 1` roundings of 128 bits can have lost: each
    /// rounding loses less than one part in two to the power of 127.
    spec fn is_close(self, power: Measure, attempt: nat) -> bool {
        pow(self.numer as int, attempt) * pow(HALF as int, (2 * attempt - 1) as nat) * whole()
            <= power.mantissa * pow2(power.exponent) * pow(self.denom as int, attempt) * pow(
            HALF + 1,
            (2 * attempt - 1) as nat,
        )
    }

    /// The measure of the ratio is within one rounding of the ratio.
    proof fn lemma_measure_is_close(self)
        requires
            0 < self.denom < self.numer,
        ensures
            self.is_close(measure_of(self.numer, self.denom), 1),
    {
        let numer = self.numer as int;
        let denom = self.denom as int;
        let quotient = numer * whole() / denom;
        lemma_fundamental_div_mod(numer * whole(), denom);
        assert(whole() <= quotient && numer * whole() < (quotient + 1) * denom)
            by (nonlinear_arith)
            requires
                numer * whole() == denom * quotient + (numer * whole()) % denom,
                0 <= (numer * whole()) % denom < denom,
                0 < denom < numer,
                0 < whole(),
        ;
        lemma_pow1(numer);
        lemma_pow1(denom);
        lemma_pow1(HALF as int);
        lemma_pow1(HALF + 1);
        vstd::arithmetic::power2::lemma2_to64();
        lemma_normalized(quotient as nat, 0);
        lemma_normalized_close(quotient as nat, 0);
        let measure = measure_of(self.numer, self.denom);
        let mantissa = measure.mantissa as int;
        let unit = pow2(measure.exponent) as int;
        lemma_pow2_pos(measure.exponent);
        assert(numer * (HALF as int) * whole() <= mantissa * unit * denom * (HALF + 1))
            by (nonlinear_arith)
            requires
                numer * whole() < (quotient + 1) * denom,
                quotient + 1 <= (mantissa + 1) * unit,
                HALF <= mantissa,
                0 < unit,
                0 < denom,
        {
            assert((mantissa + 1) * (HALF as int) <= mantissa * (HALF + 1));
            assert(((mantissa + 1) * (HALF as int)) * unit <= (mantissa * (HALF + 1)) * unit);
            assert((quotient + 1) * (HALF as int) <= ((mantissa + 1) * unit) * (HALF as int));
            assert((numer * whole()) * (HALF as int) <= ((quotient + 1) * denom) * (
            HALF as int));
            assert(((quotient + 1) * (HALF as int)) * denom <= ((mantissa * (HALF + 1)) * unit)
                * denom);
        }
    }

    /// Raising by squaring stays within `2 * attempt - 1` roundings of the
    /// true power.
    proof fn lemma_raised_is_close(self, start: Measure, attempt: nat)
        requires
            0 < self.denom < self.numer,
            start.is_full(),
            self.is_close(start, 1),
            1 <= attempt,
            raised(start, attempt) is Some,
        ensures
            self.is_close(raised(start, attempt)->0, attempt),
            raised(start, attempt)->0.is_full(),
        decreases attempt,
    {
        if attempt > 1 {
            let half = raised(start, attempt / 2);
            let square = product(half, half);
            self.lemma_raised_is_close(start, attempt / 2);
            self.lemma_product_is_close(half->0, attempt / 2, half->0, attempt / 2);
            if attempt % 2 == 1 {
                self.lemma_product_is_close(square->0, 2 * (attempt / 2), start, 1);
            }
        }
    }

    /// The rounded product of two measures loses one rounding more than its
    /// factors have lost together.
    proof fn lemma_product_is_close(
        self,
        left: Measure,
        left_attempt: nat,
        right: Measure,
        right_attempt: nat,
    )
        requires
            0 < self.denom < self.numer,
            1 <= left_attempt,
            1 <= right_attempt,
            left.is_full(),
            right.is_full(),
            self.is_close(left, left_attempt),
            self.is_close(right, right_attempt),
            product(Some(left), Some(right)) is Some,
        ensures
            self.is_close(product(Some(left), Some(right))->0, left_attempt + right_attempt),
            product(Some(left), Some(right))->0.is_full(),
    {
        let numer = self.numer as int;
        let denom = self.denom as int;
        let top = HALF as int;
        let total = left_attempt + right_attempt;
        let left_count = (2 * left_attempt - 1) as nat;
        let right_count = (2 * right_attempt - 1) as nat;
        let count = (2 * total - 1) as nat;
        lemma_pow_adds(numer, left_attempt, right_attempt);
        lemma_pow_adds(denom, left_attempt, right_attempt);
        lemma_pow_adds(top, left_count, right_count);
        lemma_pow_adds(top + 1, left_count, right_count);
        lemma_pow_adds(top, left_count + right_count, 1);
        lemma_pow_adds(top + 1, left_count + right_count, 1);
        lemma_pow1(top);
        lemma_pow1(top + 1);
        lemma_pow_positive(denom, left_attempt);
        lemma_pow_positive(denom, right_attempt);
        lemma_pow_positive(numer, left_attempt);
        lemma_pow_positive(numer, right_attempt);
        lemma_pow_positive(top, left_count);
        lemma_pow_positive(top, right_count);
        lemma_pow_positive(top + 1, left_count);
        lemma_pow_positive(top + 1, right_count);
        lemma_pow2_top();
        lemma_product_is_full(left, right);
        let result = product(Some(left), Some(right))->0;
        let exact = (left.mantissa * right.mantissa) as int;
        let sum = left.exponent + right.exponent;
        lemma_pow2_adds(left.exponent, right.exponent);
        lemma_pow2_pos(left.exponent);
        lemma_pow2_pos(right.exponent);
        lemma_pow2_pos(sum);
        lemma_pow2_unfold(sum);
        lemma_pow2_pos(result.exponent);
        let both = pow2(sum) as int;
        let left_size = (left.mantissa * pow2(left.exponent)) as int;
        let right_size = (right.mantissa * pow2(right.exponent)) as int;
        let size = (result.mantissa * pow2(result.exponent)) as int;
        let unit = pow2(result.exponent) as int;
        let mantissa = result.mantissa as int;
        assert(left_size * right_size == exact * both) by (nonlinear_arith)
            requires
                left_size == left.mantissa * pow2(left.exponent),
                right_size == right.mantissa * pow2(right.exponent),
                exact == left.mantissa * right.mantissa,
                both == pow2(left.exponent) * pow2(right.exponent),
        ;
        // The exact product is less than the rounded one with one more in
        // its last place.
        assert(exact * both < (mantissa + 1) * unit * whole()) by (nonlinear_arith)
            requires
                exact >= top * whole() ==> mantissa == exact / whole() && unit == both,
                exact < top * whole() ==> mantissa == exact / top && both == 2 * unit,
                whole() == 2 * top,
                0 < unit,
                0 < both,
                0 <= exact,
        {
            lemma_fundamental_div_mod(exact, whole());
            lemma_fundamental_div_mod(exact, top);
        }
        assert((exact * both) * top <= (size * whole()) * (top + 1)) by (nonlinear_arith)
            requires
                exact * both < (mantissa + 1) * unit * whole(),
                size == mantissa * unit,
                top <= mantissa,
                0 < unit,
                0 < whole(),
                0 < top,
        {
            assert((mantissa + 1) * top <= mantissa * (top + 1));
            assert(((mantissa + 1) * top) * (unit * whole()) <= (mantissa * (top + 1)) * (unit
                * whole()));
            assert((exact * both) * top <= ((mantissa + 1) * unit * whole()) * top);
        }
        let left_numer = pow(numer, left_attempt);
        let right_numer = pow(numer, right_attempt);
        let left_denom = pow(denom, left_attempt);
        let right_denom = pow(denom, right_attempt);
        let left_top = pow(top, left_count);
        let right_top = pow(top, right_count);
        let left_over = pow(top + 1, left_count);
        let right_over = pow(top + 1, right_count);
        let numers = left_numer * right_numer;
        let denoms = left_denom * right_denom;
        let unders = left_top * right_top;
        let overs = left_over * right_over;
        let sizes = left_size * right_size;
        assert(0 <= left_numer * left_top * whole() && 0 <= right_numer * right_top * whole())
            by (nonlinear_arith)
            requires
                0 < left_numer,
                0 < right_numer,
                0 < left_top,
                0 < right_top,
                0 < whole(),
        ;
        lemma_regrouped(left_numer, left_top, whole(), right_numer, right_top, whole());
        lemma_regrouped(left_size, left_denom, left_over, right_size, right_denom, right_over);
        assert(0 < numers && 0 < unders && 0 < denoms && 0 < overs) by (nonlinear_arith)
            requires
                numers == left_numer * right_numer,
                denoms == left_denom * right_denom,
                unders == left_top * right_top,
                overs == left_over * right_over,
                0 < left_numer,
                0 < right_numer,
                0 < left_denom,
                0 < right_denom,
                0 < left_top,
                0 < right_top,
                0 < left_over,
                0 < right_over,
        ;
        assert(numers * unders * (whole() * whole()) <= sizes * denoms * overs)
            by (nonlinear_arith)
            requires
                0 <= left_numer * left_top * whole() <= left_size * left_denom * left_over,
                0 <= right_numer * right_top * whole() <= right_size * right_denom * right_over,
                (left_numer * left_top * whole()) * (right_numer * right_top * whole()) == (
                left_numer * right_numer) * (left_top * right_top) * (whole() * whole()),
                (left_size * left_denom * left_over) * (right_size * right_denom * right_over)
                    == (left_size * right_size) * (left_denom * right_denom) * (left_over
                    * right_over),
                numers == left_numer * right_numer,
                denoms == left_denom * right_denom,
                unders == left_top * right_top,
                overs == left_over * right_over,
                sizes == left_size * right_size,
        ;
        lemma_one_more_rounding(numers, unders, sizes, denoms, overs, size, whole(), top);
        let tops = unders * top;
        let above = overs * (top + 1);
        assert(pow(top, count) == tops && pow(top + 1, count) == above) by {
            assert(count == left_count + right_count + 1);
        }
    }

    /// As many roundings as an attempt takes lose less than one part in two
    /// to the power of 62 of the whole, whatever the attempt: the powers of
    /// `2^127 + 1` and of `2^127` that [`Self::is_close`] speaks of differ
    /// by less than `count` parts in `2^127`.
    proof fn lemma_roundings_add_up(count: nat)
        requires
            count <= HALF,
        ensures
            pow(HALF + 1, count) * (HALF - count) <= pow(HALF as int, count) * HALF,
        decreases count,
    {
        reveal(pow);
        let top = HALF as int;
        if count == 0 {
            lemma_pow0(top);
            lemma_pow0(top + 1);
        } else {
            let before = (count - 1) as nat;
            Self::lemma_roundings_add_up(before);
            lemma_pow_positive(top + 1, before);
            lemma_pow_positive(top, before);
            let over = pow(top + 1, before);
            let under = pow(top, before);
            assert(((top + 1) * over) * (top - count) <= (top * under) * top)
                by (nonlinear_arith)
                requires
                    over * (top - before) <= under * top,
                    before == count - 1,
                    0 < over,
                    0 < under,
                    0 < count <= top,
            {
                assert((top + 1) * (top - count) <= top * (top - before));
                assert(over * ((top + 1) * (top - count)) <= over * (top * (top - before)));
                assert((over * (top - before)) * top <= (under * top) * top);
            }
        }
    }

    /// Rounding loses little: exact or not, the grown delay with one added
    /// exceeds `base` times the ratio to the power of `attempt` less `2 *
    /// attempt` parts in two to the power of 127 of it, which for every
    /// attempt of 64 bits is less than one part in two to the power of 62.
    /// Where the grown delay is two to the power of 128, which stands for
    /// all that is as large or larger, nothing is claimed. The claim is
    /// written without division.
    pub proof fn lemma_grown_loses_little(self, base: nat, attempt: nat)
        requires
            self.is_number(),
            attempt <= u64::MAX,
            self.grown(base, attempt) < whole(),
        ensures
            base * pow(self.numer as int, attempt) * (HALF - 2 * attempt) < (self.grown(
                base,
                attempt,
            ) + 1) * pow(self.denom as int, attempt) * HALF,
    {
        let numer_power = pow(self.numer as int, attempt);
        let denom_power = pow(self.denom as int, attempt);
        let top = HALF as int;
        let grown = self.grown(base, attempt) as int;
        lemma_pow_positive(self.denom as int, attempt);
        lemma_pow_ordered(0, self.numer as int, attempt);
        if self.is_exact(base, attempt) {
            self.lemma_exact_rounds_once(base, attempt);
            assert(base * numer_power * (top - 2 * attempt) < (grown + 1) * denom_power * top)
                by (nonlinear_arith)
                requires
                    base * numer_power < (grown + 1) * denom_power,
                    0 <= base * numer_power,
                    0 <= attempt,
                    2 * attempt < top,
            {
                assert(base * numer_power * (top - 2 * attempt) <= (base * numer_power) * top);
                assert((base * numer_power) * top < ((grown + 1) * denom_power) * top);
            }
        } else {
            let start = measure_of(self.numer, self.denom);
            self.lemma_measure_is_above();
            self.lemma_measure_is_close();
            let power = raised(start, attempt)->0;
            self.lemma_raised_is_close(start, attempt);
            let count = (2 * attempt - 1) as nat;
            Self::lemma_roundings_add_up(count);
            lemma_pow_positive(top, count);
            lemma_pow_positive(top + 1, count);
            let under = pow(top, count);
            let over = pow(top + 1, count);
            let size = (power.mantissa * pow2(power.exponent)) as int;
            let scaled = (base * power.mantissa * pow2(power.exponent)) as int;
            lemma_fundamental_div_mod(scaled, whole());
            assert(base * size < (grown + 1) * whole()) by (nonlinear_arith)
                requires
                    scaled == whole() * grown + scaled % whole(),
                    scaled % whole() < whole(),
                    scaled == base * power.mantissa * pow2(power.exponent),
                    size == power.mantissa * pow2(power.exponent),
            ;
            // base * numer^n * under * whole <= base * size * denom^n * over
            //                                 < (grown + 1) * whole * denom^n * over
            assert(base * numer_power * under < (grown + 1) * denom_power * over)
                by (nonlinear_arith)
                requires
                    numer_power * under * whole() <= size * denom_power * over,
                    base * size < (grown + 1) * whole(),
                    0 < base,
                    0 < whole(),
                    0 < denom_power,
                    0 < over,
            {
                assert(base * (numer_power * under * whole()) <= base * (size * denom_power
                    * over));
                assert((base * size) * (denom_power * over) < ((grown + 1) * whole()) * (
                denom_power * over));
                assert((base * numer_power * under) * whole() < ((grown + 1) * denom_power
                    * over) * whole());
            }
            assert(base * numer_power * (top - 2 * attempt) < (grown + 1) * denom_power * top)
                by (nonlinear_arith)
                requires
                    base * numer_power * under < (grown + 1) * denom_power * over,
                    over * (top - count) <= under * top,
                    count == 2 * attempt - 1,
                    0 < under,
                    0 < over,
                    0 <= base * numer_power,
                    0 <= grown,
                    0 < denom_power,
                    count < top,
            {
                assert((base * numer_power * under) * (top - count) < ((grown + 1) * denom_power
                    * over) * (top - count));
                assert(((grown + 1) * denom_power) * (over * (top - count)) <= ((grown + 1)
                    * denom_power) * (under * top));
                assert((base * numer_power * (top - count)) * under < ((grown + 1) * denom_power
                    * top) * under);
                assert(base * numer_power * (top - count) < (grown + 1) * denom_power * top);
                assert(base * numer_power * (top - 2 * attempt) <= base * numer_power * (top
                    - count));
            }
        }
    }

    /// A ratio above one grows without end: its power is at least one and
    /// `attempt` times what the ratio has above one. The claim is written
    /// without division.
    pub proof fn lemma_power_grows(self, attempt: nat)
        requires
            0 < self.denom < self.numer,
        ensures
            pow(self.denom as int, attempt) * (self.denom + attempt * (self.numer - self.denom))
                <= pow(self.numer as int, attempt) * self.denom,
        decreases attempt,
    {
        reveal(pow);
        let numer = self.numer as int;
        let denom = self.denom as int;
        let above = numer - denom;
        if attempt == 0 {
            lemma_pow0(numer);
            lemma_pow0(denom);
        } else {
            let before = (attempt - 1) as nat;
            self.lemma_power_grows(before);
            lemma_pow_positive(denom, before);
            lemma_pow_positive(numer, before);
            let denom_power = pow(denom, before);
            let numer_power = pow(numer, before);
            assert((denom * denom_power) * (denom + attempt * above) <= (numer * numer_power)
                * denom) by (nonlinear_arith)
                requires
                    denom_power * (denom + before * above) <= numer_power * denom,
                    attempt == before + 1,
                    numer == denom + above,
                    0 < above,
                    0 < denom,
                    0 <= before,
                    0 < denom_power,
                    0 < numer_power,
            {
                assert(denom * (denom + attempt * above) <= numer * (denom + before * above));
                assert(denom_power * (denom * (denom + attempt * above)) <= denom_power * (
                numer * (denom + before * above)));
                assert(numer * (denom_power * (denom + before * above)) <= numer * (numer_power
                    * denom));
            }
        }
    }

    /// The measure of the ratio is full and at most the ratio.
    proof fn lemma_measure_is_above(self)
        requires
            0 < self.denom < self.numer,
        ensures
            measure_of(self.numer, self.denom).is_full(),
            self.is_above(Some(measure_of(self.numer, self.denom)), 1),
    {
        let numer = self.numer as int;
        let denom = self.denom as int;
        let quotient = numer * whole() / denom;
        lemma_fundamental_div_mod(numer * whole(), denom);
        assert(whole() <= quotient && quotient * denom <= numer * whole()) by (nonlinear_arith)
            requires
                numer * whole() == denom * quotient + (numer * whole()) % denom,
                0 <= (numer * whole()) % denom < denom,
                0 < denom < numer,
                0 < whole(),
        ;
        lemma_pow1(numer);
        lemma_pow1(denom);
        vstd::arithmetic::power2::lemma2_to64();
        lemma_normalized(quotient as nat, 0);
        let measure = measure_of(self.numer, self.denom);
        let size = measure.mantissa * pow2(measure.exponent);
        assert(size * denom <= whole() * numer) by (nonlinear_arith)
            requires
                size <= quotient,
                quotient * denom <= numer * whole(),
                0 < denom,
        ;
    }

    /// Raising by squaring keeps at or below the true power, and keeps full.
    proof fn lemma_raised_is_above(self, start: Measure, attempt: nat)
        requires
            0 < self.denom < self.numer,
            start.is_full(),
            self.is_above(Some(start), 1),
            1 <= attempt,
        ensures
            self.is_above(raised(start, attempt), attempt),
            raised(start, attempt) matches Some(power) ==> power.is_full(),
        decreases attempt,
    {
        if attempt > 1 {
            let half = raised(start, attempt / 2);
            self.lemma_raised_is_above(start, attempt / 2);
            self.lemma_product_is_above(half, attempt / 2, half, attempt / 2);
            let square = product(half, half);
            if attempt % 2 == 1 {
                self.lemma_product_is_above(square, 2 * (attempt / 2), Some(start), 1);
            }
        }
    }

    /// The rounded product of two measures that are at most two powers of
    /// the ratio is at most the product of the powers, and full.
    proof fn lemma_product_is_above(
        self,
        left: Option<Measure>,
        left_attempt: nat,
        right: Option<Measure>,
        right_attempt: nat,
    )
        requires
            0 < self.denom < self.numer,
            self.is_above(left, left_attempt),
            self.is_above(right, right_attempt),
            left matches Some(a) ==> a.is_full(),
            right matches Some(b) ==> b.is_full(),
        ensures
            self.is_above(product(left, right), left_attempt + right_attempt),
            product(left, right) matches Some(c) ==> c.is_full(),
    {
        let numer = self.numer as int;
        let denom = self.denom as int;
        let total = left_attempt + right_attempt;
        lemma_pow_adds(numer, left_attempt, right_attempt);
        lemma_pow_adds(denom, left_attempt, right_attempt);
        lemma_pow_ordered(denom, numer, left_attempt);
        lemma_pow_ordered(denom, numer, right_attempt);
        lemma_pow_positive(denom, left_attempt);
        lemma_pow_positive(denom, right_attempt);
        lemma_pow2_top();
        lemma_pow_positive(denom, total);
        let left_numer = pow(numer, left_attempt);
        let right_numer = pow(numer, right_attempt);
        let left_denom = pow(denom, left_attempt);
        let right_denom = pow(denom, right_attempt);
        match (left, right) {
            (Some(a), Some(b)) => {
                let exact = (a.mantissa * b.mantissa) as int;
                let sum = a.exponent + b.exponent;
                lemma_pow2_adds(a.exponent, b.exponent);
                lemma_pow2_pos(a.exponent);
                lemma_pow2_pos(b.exponent);
                lemma_pow2_pos(sum);
                lemma_pow2_unfold(sum);
                lemma_pow2_pos((sum - 1) as nat);
                if sum > 128 {
                    lemma_pow2_ordered(129, sum);
                    lemma_pow2_unfold(129);
                }
                if sum > 129 {
                    lemma_pow2_ordered(129, (sum - 1) as nat);
                }
                let left_size = (a.mantissa * pow2(a.exponent)) as int;
                let right_size = (b.mantissa * pow2(b.exponent)) as int;
                let both = pow2(sum) as int;
                assert(HALF * HALF <= exact < whole() * whole()) by (nonlinear_arith)
                    requires
                        exact == a.mantissa * b.mantissa,
                        HALF <= a.mantissa < whole(),
                        HALF <= b.mantissa < whole(),
                ;
                assert(left_size * right_size == exact * both) by (nonlinear_arith)
                    requires
                        left_size == a.mantissa * pow2(a.exponent),
                        right_size == b.mantissa * pow2(b.exponent),
                        exact == a.mantissa * b.mantissa,
                        both == pow2(a.exponent) * pow2(b.exponent),
                ;
                assert((left_size * right_size) * (left_denom * right_denom) <= (whole()
                    * whole()) * (left_numer * right_numer)) by (nonlinear_arith)
                    requires
                        left_size * left_denom <= whole() * left_numer,
                        right_size * right_denom <= whole() * right_numer,
                        0 <= left_size,
                        0 <= right_size,
                        0 < left_denom,
                        0 < right_denom,
                {
                    assert((left_size * left_denom) * (right_size * right_denom) <= (whole()
                        * left_numer) * (whole() * right_numer));
                }
                // `size` is the rounded product as a whole number; it loses
                // against the exact one.
                let size: int = if exact >= HALF * whole() {
                    (exact / whole()) * both
                } else {
                    (exact / (HALF as int)) * pow2((sum - 1) as nat)
                };
                assert(size * whole() <= exact * both) by (nonlinear_arith)
                    requires
                        size == if exact >= HALF * whole() {
                            (exact / whole()) * both
                        } else {
                            (exact / (HALF as int)) * pow2((sum - 1) as nat)
                        },
                        exact < HALF * whole() ==> both == 2 * pow2((sum - 1) as nat),
                        whole() == 2 * HALF,
                        0 <= exact,
                        0 < both,
                {
                    lemma_fundamental_div_mod(exact, whole());
                    lemma_fundamental_div_mod(exact, HALF as int);
                }
                assert(size * (left_denom * right_denom) <= whole() * (left_numer * right_numer))
                    by (nonlinear_arith)
                    requires
                        size * whole() <= exact * both,
                        left_size * right_size == exact * both,
                        (left_size * right_size) * (left_denom * right_denom) <= (whole()
                            * whole()) * (left_numer * right_numer),
                        0 < whole(),
                        0 < left_denom * right_denom,
                {
                    assert((size * whole()) * (left_denom * right_denom) <= (exact * both) * (
                    left_denom * right_denom));
                }
                if product(left, right) is None {
                    // The rounded product is two to the power of 256 or
                    // more as a whole number.
                    assert(whole() * whole() <= size) by (nonlinear_arith)
                        requires
                            size == if exact >= HALF * whole() {
                                (exact / whole()) * both
                            } else {
                                (exact / (HALF as int)) * pow2((sum - 1) as nat)
                            },
                            exact >= HALF * whole() ==> both >= 2 * whole(),
                            exact < HALF * whole() ==> pow2((sum - 1) as nat) >= 2 * whole(),
                            HALF * HALF <= exact,
                            whole() == 2 * HALF,
                    {
                        lemma_fundamental_div_mod(exact, whole());
                        lemma_fundamental_div_mod(exact, HALF as int);
                    }
                    assert(whole() * (left_denom * right_denom) <= left_numer * right_numer)
                        by (nonlinear_arith)
                        requires
                            size * (left_denom * right_denom) <= whole() * (left_numer
                                * right_numer),
                            whole() * whole() <= size,
                            0 < whole(),
                            0 < left_denom * right_denom,
                    ;
                }
            },
            (None, _) => {
                assert(whole() * (left_denom * right_denom) <= left_numer * right_numer)
                    by (nonlinear_arith)
                    requires
                        whole() * left_denom <= left_numer,
                        0 < right_denom <= right_numer,
                        0 < whole(),
                        0 < left_denom,
                ;
            },
            (_, None) => {
                assert(whole() * (left_denom * right_denom) <= left_numer * right_numer)
                    by (nonlinear_arith)
                    requires
                        whole() * right_denom <= right_numer,
                        0 < left_denom <= left_numer,
                        0 < whole(),
                        0 < right_denom,
                ;
            },
        }
    }
}

/// Halving until the number fits keeps at or below the number, ends with a
/// full mantissa for numbers of two to the power of 127 and more, and adds
/// to the exponent what it takes from the number.
proof fn lemma_normalized(numerator: nat, exponent: nat)
    requires
        HALF <= numerator,
    ensures
        HALF <= normalized(numerator, exponent).mantissa < whole(),
        normalized(numerator, exponent).mantissa * pow2(normalized(numerator, exponent).exponent)
            <= numerator * pow2(exponent),
        numerator >= whole() ==> normalized(numerator, exponent).exponent > exponent,
        normalized(numerator, exponent).exponent >= exponent,
    decreases numerator,
{
    if numerator >= whole() {
        lemma_normalized(numerator / 2, exponent + 1);
        lemma_pow2_unfold(exponent + 1);
        let next = normalized(numerator / 2, exponent + 1);
        let size = next.mantissa * pow2(next.exponent);
        let power = pow2(exponent);
        assert(size <= numerator * power) by (nonlinear_arith)
            requires
                size <= (numerator / 2) * (2 * power),
                0 <= power,
                0 <= numerator,
        ;
    }
}

/// The rounded product of two full measures is full.
proof fn lemma_product_is_full(left: Measure, right: Measure)
    requires
        left.is_full(),
        right.is_full(),
    ensures
        product(Some(left), Some(right)) matches Some(result) ==> result.is_full(),
{
    let exact = (left.mantissa * right.mantissa) as int;
    assert(HALF * HALF <= exact < whole() * whole()) by (nonlinear_arith)
        requires
            exact == left.mantissa * right.mantissa,
            HALF <= left.mantissa < whole(),
            HALF <= right.mantissa < whole(),
    ;
}

/// A product of two products of three, factor by factor.
proof fn lemma_regrouped(a: int, b: int, c: int, d: int, e: int, f: int)
    by (nonlinear_arith)
    ensures
        (a * b * c) * (d * e * f) == (a * d) * (b * e) * (c * f),
{
}

/// One step of the count of roundings: from the bound for two factors and
/// the loss of their rounded product to the bound for the product.
proof fn lemma_one_more_rounding(
    numers: int,
    unders: int,
    sizes: int,
    denoms: int,
    overs: int,
    size: int,
    unit: int,
    top: int,
)
    requires
        numers * unders * (unit * unit) <= sizes * denoms * overs,
        sizes * top <= (size * unit) * (top + 1),
        0 < unit,
        0 < top,
        0 < denoms,
        0 < overs,
    ensures
        numers * (unders * top) * unit <= size * denoms * (overs * (top + 1)),
{
    let spread = denoms * overs;
    assert(0 < spread) by (nonlinear_arith)
        requires
            spread == denoms * overs,
            0 < denoms,
            0 < overs,
    ;
    let low = numers * unders * (unit * unit);
    let high = sizes * denoms * overs;
    assert(low * top <= high * top) by (nonlinear_arith)
        requires
            low <= high,
            0 < top,
    ;
    assert(high * top == (sizes * top) * spread) by (nonlinear_arith)
        requires
            high == sizes * denoms * overs,
            spread == denoms * overs,
    ;
    assert((sizes * top) * spread <= ((size * unit) * (top + 1)) * spread) by (nonlinear_arith)
        requires
            sizes * top <= (size * unit) * (top + 1),
            0 < spread,
    ;
    assert(((size * unit) * (top + 1)) * spread == (size * denoms * (overs * (top + 1))) * unit)
        by (nonlinear_arith)
        requires
            spread == denoms * overs,
    ;
    assert(low * top == (numers * (unders * top) * unit) * unit) by (nonlinear_arith)
        requires
            low == numers * unders * (unit * unit),
    ;
    assert(numers * (unders * top) * unit <= size * denoms * (overs * (top + 1)))
        by (nonlinear_arith)
        requires
            (numers * (unders * top) * unit) * unit <= (size * denoms * (overs * (top + 1)))
                * unit,
            0 < unit,
    ;
}

/// Halving until the number fits loses less than one in the last place of
/// the mantissa.
proof fn lemma_normalized_close(numerator: nat, exponent: nat)
    ensures
        (numerator + 1) * pow2(exponent) <= (normalized(numerator, exponent).mantissa + 1) * pow2(
            normalized(numerator, exponent).exponent,
        ),
    decreases numerator,
{
    if numerator >= whole() {
        lemma_normalized_close(numerator / 2, exponent + 1);
        lemma_pow2_unfold(exponent + 1);
        let next = normalized(numerator / 2, exponent + 1);
        let size = (next.mantissa + 1) * pow2(next.exponent);
        let power = pow2(exponent);
        assert((numerator + 1) * power <= size) by (nonlinear_arith)
            requires
                (numerator / 2 + 1) * (2 * power) <= size,
                0 <= power,
                0 <= numerator,
        ;
    }
}

/// Powers of two keep the order of their exponents.
proof fn lemma_pow2_ordered(low: nat, high: nat)
    requires
        low <= high,
    ensures
        pow2(low) <= pow2(high),
{
    if low < high {
        lemma_pow2_strictly_increases(low, high);
    }
}

/// Powers keep the order of bases that are not negative.
pub(crate) proof fn lemma_pow_ordered(low: int, high: int, exponent: nat)
    requires
        0 <= low <= high,
    ensures
        0 <= pow(low, exponent) <= pow(high, exponent),
    decreases exponent,
{
    reveal(pow);
    if exponent > 0 {
        let low_rest = pow(low, (exponent - 1) as nat);
        let high_rest = pow(high, (exponent - 1) as nat);
        lemma_pow_ordered(low, high, (exponent - 1) as nat);
        assert(0 <= low * low_rest <= high * high_rest) by (nonlinear_arith)
            requires
                0 <= low <= high,
                0 <= low_rest <= high_rest,
        ;
    }
}

/// `value` brought into `[min, max]`: first raised to `min`, then cut at
/// `max`. With `min > max` the result is therefore always `max`.
pub open spec fn clamped(value: nat, min: nat, max: nat) -> nat {
    let raised = if value < min {
        min
    } else {
        value
    };
    if raised > max {
        max
    } else {
        raised
    }
}

/// Clamping keeps the order of values.
pub proof fn lemma_clamped_monotonic(low: nat, high: nat, min: nat, max: nat)
    requires
        low <= high,
    ensures
        clamped(low, min, max) <= clamped(high, min, max),
{
}

/// A clamped value never exceeds the maximum. Where the bounds are in order
/// it lies between them, and a value already between them is kept; where
/// they are not, it is the maximum.
pub proof fn lemma_clamped_bounds(value: nat, min: nat, max: nat)
    ensures
        clamped(value, min, max) <= max,
        min <= max ==> min <= clamped(value, min, max),
        min <= value <= max ==> clamped(value, min, max) == value,
        min > max ==> clamped(value, min, max) == max,
{
}

} // verus!
