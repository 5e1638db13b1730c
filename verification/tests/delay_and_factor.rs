use backoff::delay::{Delay, NANOS_PER_MILLI, NANOS_PER_SEC};
use backoff::factor::{power_within, Factor};
use backoff::magnitude::Magnitude;
use backoff::wide::mul_wide;

#[test]
fn delay_units() {
    assert_eq!(NANOS_PER_MILLI, 1_000_000);
    assert_eq!(NANOS_PER_SEC, 1_000_000_000);
    assert_eq!(Delay::from_nanos(17).as_nanos(), 17);
    assert_eq!(Delay::from_millis(100).as_nanos(), 100_000_000);
    assert_eq!(Delay::from_secs(10).as_nanos(), 10_000_000_000);
    assert_eq!(Delay::from_secs(10), Delay::from_millis(10_000));
}

#[test]
fn delay_of_the_largest_counts() {
    assert_eq!(
        Delay::from_secs(u64::MAX).as_nanos(),
        18_446_744_073_709_551_615_000_000_000u128
    );
    assert_eq!(
        Delay::from_millis(u64::MAX).as_nanos(),
        18_446_744_073_709_551_615_000_000u128
    );
    assert_eq!(Delay::from_nanos(u128::MAX).as_nanos(), u128::MAX);
}

#[test]
fn delays_are_ordered_by_length() {
    assert!(Delay::from_millis(999) < Delay::from_secs(1));
    assert!(Delay::from_secs(1) <= Delay::from_millis(1000));
    assert!(Delay::from_nanos(1) > Delay::from_nanos(0));
}

#[test]
fn factor_with_denominator_zero_is_refused() {
    assert!(Factor::ratio(1, 0).is_none());
    assert!(Factor::ratio(0, 0).is_none());
    assert!(Factor::ratio(0, 1).is_some());
    let factor = Factor::ratio(7, 3).unwrap();
    assert_eq!(factor.numer(), 7);
    assert_eq!(factor.denom(), 3);
}


#[test]
fn factor_of_a_whole_number() {
    let factor = Factor::whole(2);
    assert_eq!(factor.numer(), 2);
    assert_eq!(factor.denom(), 1);
    assert_eq!(factor.grow(100, 1), Some(200));
    assert_eq!(factor.grow(0, 5), Some(0));
    assert_eq!(factor.grow(7, 0), Some(7));
}

#[test]
fn grow_rounds_down_once() {
    let factor = Factor::ratio(3, 2).unwrap();
    assert_eq!(factor.grow(1, 1), Some(1));
    assert_eq!(factor.grow(1, 2), Some(2));
    assert_eq!(factor.grow(1, 3), Some(3));
    assert_eq!(factor.grow(1, 4), Some(5));
    assert_eq!(factor.grow(5, 1), Some(7));
    assert_eq!(factor.grow(1, 200), Some(165_291_991_078_820_803_015_600_259_355_571_011));
}

#[test]
fn grow_is_at_least_the_base() {
    let third = Factor::ratio(1, 3).unwrap();
    assert_eq!(third.grow(10, 1), Some(10));
    assert_eq!(third.grow(10, u64::MAX), Some(10));
    assert_eq!(Factor::whole(0).grow(10, 3), Some(10));
    assert_eq!(Factor::whole(1).grow(10, 3), Some(10));
}

#[test]
fn grow_reports_what_does_not_fit() {
    let double = Factor::whole(2);
    assert_eq!(double.grow(1, 127), Some(1 << 127));
    assert_eq!(double.grow(1, 128), None);
    assert_eq!(double.grow(u128::MAX / 2, 1), Some(u128::MAX - 1));
    assert_eq!(double.grow(u128::MAX / 2 + 1, 1), None);
    assert_eq!(double.grow(3, u64::MAX), None);
    let halves = Factor::ratio(3, 2).unwrap();
    assert_eq!(halves.grow(1, 218).is_some(), true);
    assert_eq!(halves.grow(1, 219), None);
}

#[test]
fn power_within_128_bits() {
    assert_eq!(power_within(0, 0), Some(1));
    assert_eq!(power_within(0, 9), Some(0));
    assert_eq!(power_within(1, u64::MAX), Some(1));
    assert_eq!(power_within(2, 10), Some(1024));
    assert_eq!(power_within(2, 127), Some(1 << 127));
    assert_eq!(power_within(2, 128), None);
    assert_eq!(power_within(3, 80), Some(147_808_829_414_345_923_316_083_210_206_383_297_601));
    assert_eq!(power_within(3, 81), None);
    assert_eq!(power_within(u64::MAX, 2), Some(u128::MAX - 2 * (u64::MAX as u128)));
    assert_eq!(power_within(u64::MAX, 3), None);
    assert_eq!(power_within(7, u64::MAX), None);
}

#[test]
fn wide_product_has_both_halves() {
    assert_eq!(mul_wide(0, u128::MAX), (0, 0));
    assert_eq!(mul_wide(3, 5), (0, 15));
    assert_eq!(mul_wide(1 << 64, 1 << 64), (1, 0));
    assert_eq!(mul_wide(u128::MAX, 2), (1, u128::MAX - 1));
    assert_eq!(mul_wide(u128::MAX, u128::MAX), (u128::MAX - 1, 1));
    assert_eq!(mul_wide((1 << 100) + 7, (1 << 90) + 3), (1 << 62, (3 << 100) + (7 << 90) + 21));
}

#[test]
fn magnitude_of_a_ratio() {
    assert!(Magnitude::of_ratio(1, 1).is_none());
    assert!(Magnitude::of_ratio(1, 2).is_none());
    assert!(Magnitude::of_ratio(5, 0).is_none());
    let halves = Magnitude::of_ratio(3, 2).unwrap();
    assert_eq!(halves.apply(2), Some(3));
    assert_eq!(halves.apply(5), Some(7));
    let third = Magnitude::of_ratio(4, 3).unwrap();
    // Four thirds has no end in binary, so the magnitude is a little less.
    assert_eq!(third.apply(3), Some(3));
    assert_eq!(third.apply(3_000_000), Some(3_999_999));
    assert_eq!(third.apply(4), Some(5));
    let large = Magnitude::of_ratio(u64::MAX, 1).unwrap();
    assert_eq!(large.apply(1), Some(u64::MAX as u128));
    assert_eq!(large.apply(u128::MAX), None);
}

#[test]
fn magnitude_product_and_power() {
    let halves = Magnitude::of_ratio(3, 2).unwrap();
    let square = halves.times(&halves).unwrap();
    assert_eq!(square.apply(4), Some(9));
    assert_eq!(halves.raise(1).unwrap().apply(2), Some(3));
    assert_eq!(halves.raise(2).unwrap().apply(4), Some(9));
    assert_eq!(halves.raise(3).unwrap().apply(8), Some(27));
    assert_eq!(halves.raise(10).unwrap().apply(1024), Some(59_049));
    assert!(halves.raise(218).is_some());
    assert!(halves.raise(219).is_none());
    assert!(halves.raise(u64::MAX).is_none());
    let double = Magnitude::of_ratio(2, 1).unwrap();
    assert_eq!(double.raise(127).unwrap().apply(1), Some(1 << 127));
    assert!(double.raise(128).is_none());
}
