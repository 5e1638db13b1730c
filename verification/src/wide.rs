use vstd::arithmetic::power2::{
    lemma2_to64, lemma2_to64_rest, lemma_pow2_adds, lemma_pow2_strictly_increases,
    lemma_pow2_unfold, pow2,
};
use vstd::prelude::*;

verus! {

/// Two to the power of 64.
pub const LIMB: u128 = 0x1_0000_0000_0000_0000;

/// Two to the power of 127: the least mantissa of a magnitude.
pub const HALF: u128 = 0x8000_0000_0000_0000_0000_0000_0000_0000;

/// Two to the power of 128, which no `u128` holds.
pub open spec fn whole() -> int {
    0x1_0000_0000_0000_0000_0000_0000_0000_0000int
}

/// The product of two 128-bit numbers in two halves of 128 bits each.
pub fn mul_wide(a: u128, b: u128) -> (product: (u128, u128))
    ensures
        product.0 * whole() + product.1 == a * b,
{
    let a0: u128 = a % LIMB;
    let a1: u128 = a / LIMB;
    let b0: u128 = b % LIMB;
    let b1: u128 = b / LIMB;
    assert(a0 * b0 <= u128::MAX && a0 * b1 <= u128::MAX && a1 * b0 <= u128::MAX && a1 * b1
        <= u128::MAX) by (nonlinear_arith)
        requires
            a0 < 0x1_0000_0000_0000_0000,
            a1 < 0x1_0000_0000_0000_0000,
            b0 < 0x1_0000_0000_0000_0000,
            b1 < 0x1_0000_0000_0000_0000,
    ;
    let low: u128 = a0 * b0;
    let cross: u128 = a0 * b1;
    let other: u128 = a1 * b0;
    let high: u128 = a1 * b1;
    let middle: u128 = low / LIMB + cross % LIMB + other % LIMB;
    let lower: u128 = (middle % LIMB) * LIMB + low % LIMB;
    let ghost upper: int = high + cross / LIMB + other / LIMB + middle / LIMB;
    assert(a * b == high * whole() + (cross + other) * LIMB + low) by (nonlinear_arith)
        requires
            a == a1 * LIMB + a0,
            b == b1 * LIMB + b0,
            low == a0 * b0,
            cross == a0 * b1,
            other == a1 * b0,
            high == a1 * b1,
            LIMB == 0x1_0000_0000_0000_0000,
            whole() == 0x1_0000_0000_0000_0000_0000_0000_0000_0000int,
    ;
    assert(upper * whole() + lower == a * b);
    assert(a * b < whole() * whole()) by (nonlinear_arith)
        requires
            a < whole(),
            b < whole(),
            0 < whole(),
    ;
    assert(upper < whole()) by (nonlinear_arith)
        requires
            upper * whole() + lower == a * b,
            a * b < whole() * whole(),
            0 <= lower,
            0 < whole(),
    ;
    (high + cross / LIMB + other / LIMB + middle / LIMB, lower)
}

/// The two largest powers of two that are at hand as numbers.
pub proof fn lemma_pow2_top()
    ensures
        pow2(64) == LIMB,
        pow2(127) == HALF,
        pow2(128) == whole(),
{
    lemma2_to64();
    lemma2_to64_rest();
    lemma_pow2_adds(64, 63);
    lemma_pow2_adds(64, 64);
}

/// Two to the power of `exponent`.
pub(crate) fn two_to(exponent: u32) -> (power: u128)
    requires
        exponent <= 127,
    ensures
        power == pow2(exponent as nat),
        0 < power <= HALF,
{
    let mut power: u128 = 1;
    let mut done: u32 = 0;
    proof {
        lemma2_to64();
        lemma_pow2_top();
    }
    while done < exponent
        invariant
            done <= exponent <= 127,
            power == pow2(done as nat),
            0 < power,
            pow2(127) == HALF,
        decreases exponent - done,
    {
        proof {
            lemma_pow2_unfold((done + 1) as nat);
            if done + 1 < 127 {
                lemma_pow2_strictly_increases((done + 1) as nat, 127);
            }
        }
        power = power * 2;
        done = done + 1;
    }
    proof {
        if exponent < 127 {
            lemma_pow2_strictly_increases(exponent as nat, 127);
        }
    }
    power
}

} // verus!
