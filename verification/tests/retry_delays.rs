use backoff::backoff::Backoff;
use backoff::delay::Delay;
use backoff::factor::Factor;

#[test]
fn backoff_duration_increases_with_attempt_count() {
    let mut backoff = Backoff::new();

    // First attempt.
    let duration = backoff.next_duration();
    assert_eq!(duration, Delay::from_millis(100));

    // Second attempt.
    let duration = backoff.next_duration();
    assert_eq!(duration, Delay::from_millis(200));

    // Third attempt.
    let duration = backoff.next_duration();
    assert_eq!(duration, Delay::from_millis(400));
}

#[test]
fn backoff_duration_is_capped_at_max_duration() {
    let mut backoff = Backoff::new().with_max(Delay::from_millis(400));

    // First attempt.
    let duration = backoff.next_duration();
    assert_eq!(duration, Delay::from_millis(100));

    // Second attempt.
    let duration = backoff.next_duration();
    assert_eq!(duration, Delay::from_millis(200));

    // Third attempt.
    let duration = backoff.next_duration();
    assert_eq!(duration, Delay::from_millis(400));

    // Fourth attempt.
    let duration = backoff.next_duration();
    assert_eq!(duration, Delay::from_millis(400));
}

#[test]
fn backoff_duration_can_be_jittered() {
    let mut backoff = Backoff::new().with_jitter(true);

    // First attempt: the range to draw from is the minimum alone.
    let duration = backoff.next_duration();
    assert!(duration >= Delay::from_millis(100));
    assert!(duration <= Delay::from_millis(200));

    // Second attempt: drawn between the minimum and 200 ms.
    let duration = backoff.next_duration();
    assert!(duration >= Delay::from_millis(100));
    assert!(duration <= Delay::from_millis(400));

    // Third attempt: drawn between the minimum and 400 ms.
    let duration = backoff.next_duration();
    assert!(duration >= Delay::from_millis(100));
    assert!(duration <= Delay::from_secs(1));
}

#[test]
fn backoff_reset_can_be_reseted() {
    let mut backoff = Backoff::new();

    let duration = backoff.next_duration();
    backoff.reset();

    assert!(duration == Delay::from_millis(100));
}

#[test]
fn defaults_are_two_times_from_100_ms_to_10_s() {
    let backoff = Backoff::new();
    assert_eq!(backoff.current_attempt(), 0);
    assert_eq!(backoff.duration_for_attempt(0), Delay::from_millis(100));
    assert_eq!(backoff.duration_for_attempt(1), Delay::from_millis(200));
    assert_eq!(backoff.duration_for_attempt(6), Delay::from_millis(6400));
    assert_eq!(backoff.duration_for_attempt(7), Delay::from_secs(10));
    assert_eq!(backoff.duration_for_attempt(8), Delay::from_secs(10));
}

#[test]
fn delay_is_minimum_times_factor_to_the_attempt() {
    let backoff = Backoff::new()
        .with_min(Delay::from_millis(3))
        .with_max(Delay::from_nanos(u128::MAX))
        .with_factor(Factor::whole(3));
    let mut expected: u128 = 3_000_000;
    for attempt in 0..20u64 {
        assert_eq!(backoff.duration_for_attempt(attempt).as_nanos(), expected);
        expected *= 3;
    }
}

#[test]
fn delay_never_shrinks_with_a_growing_factor() {
    let backoff = Backoff::new().with_factor(Factor::ratio(5, 4).unwrap());
    let mut last = Delay::from_nanos(0);
    for attempt in 0..200u64 {
        let delay = backoff.duration_for_attempt(attempt);
        assert!(delay >= last);
        last = delay;
    }
    assert_eq!(last, Delay::from_secs(10));
}

#[test]
fn fourth_call_with_max_400_ms_is_400_ms() {
    let mut backoff = Backoff::new().with_max(Delay::from_millis(400));
    backoff.next_duration();
    backoff.next_duration();
    let third = backoff.next_duration();
    let fourth = backoff.next_duration();
    assert_eq!(third, Delay::from_millis(400));
    assert_eq!(fourth, Delay::from_millis(400));
    assert_ne!(fourth, Delay::from_millis(800));
}

#[test]
fn delay_never_exceeds_maximum() {
    let backoff = Backoff::new().with_max(Delay::from_millis(750));
    for attempt in [0u64, 1, 2, 3, 4, 10, 63, 64, 127, 128, 129, 1000, u64::MAX] {
        let delay = backoff.duration_for_attempt(attempt);
        assert!(delay <= Delay::from_millis(750));
        assert!(delay >= Delay::from_millis(100));
    }
    assert_eq!(backoff.duration_for_attempt(3), Delay::from_millis(750));
    assert_eq!(backoff.duration_for_attempt(u64::MAX), Delay::from_millis(750));
}

#[test]
fn jittered_delay_lies_between_minimum_and_plain_delay() {
    let plain = Backoff::new();
    let jittered = Backoff::new().with_jitter(true);
    for attempt in 0..12u64 {
        let ceiling = plain.duration_for_attempt(attempt);
        for _ in 0..50 {
            let delay = jittered.duration_for_attempt(attempt);
            assert!(delay >= Delay::from_millis(100));
            assert!(delay <= ceiling);
        }
    }
}

#[test]
fn jitter_at_attempt_zero_has_one_value() {
    let jittered = Backoff::new().with_jitter(true);
    for _ in 0..50 {
        assert_eq!(jittered.duration_for_attempt(0), Delay::from_millis(100));
    }
}

#[test]
fn jitter_draws_differ() {
    // 200 draws from a range of a hundred thousand million nanoseconds.
    let jittered = Backoff::new()
        .with_jitter(true)
        .with_max(Delay::from_secs(1000));
    let low = Delay::from_millis(100);
    let high = Backoff::new()
        .with_max(Delay::from_secs(1000))
        .duration_for_attempt(10);
    assert_eq!(high, Delay::from_millis(102_400));
    let mut seen_inside = false;
    let mut first = None;
    let mut seen_two = false;
    for _ in 0..200 {
        let delay = jittered.duration_for_attempt(10);
        assert!(delay >= low && delay <= high);
        if delay != low && delay != high {
            seen_inside = true;
        }
        match first {
            None => first = Some(delay),
            Some(earlier) => {
                if earlier != delay {
                    seen_two = true;
                }
            }
        }
    }
    assert!(seen_inside);
    assert!(seen_two);
}

#[test]
fn jitter_is_cut_at_the_maximum() {
    let jittered = Backoff::new()
        .with_jitter(true)
        .with_max(Delay::from_millis(150));
    for _ in 0..100 {
        let delay = jittered.duration_for_attempt(40);
        assert!(delay >= Delay::from_millis(100));
        assert!(delay <= Delay::from_millis(150));
    }
}

#[test]
fn reset_on_a_fresh_backoff_keeps_zero() {
    let mut backoff = Backoff::new();
    backoff.reset();
    assert_eq!(backoff.current_attempt(), 0);
    backoff.reset();
    assert_eq!(backoff.current_attempt(), 0);
    assert_eq!(backoff.next_duration(), Delay::from_millis(100));
}

#[test]
fn reset_brings_back_the_first_delay() {
    for calls in [0usize, 1, 2, 5, 40, 300] {
        let mut backoff = Backoff::new();
        let first = backoff.clone().next_duration();
        for _ in 0..calls {
            backoff.next_duration();
        }
        assert_eq!(backoff.current_attempt(), calls as u64);
        backoff.reset();
        assert_eq!(backoff.current_attempt(), 0);
        assert_eq!(backoff.next_duration(), first);
        assert_eq!(first, Delay::from_millis(100));
    }
}

#[test]
fn reset_brings_back_the_first_delay_with_jitter() {
    let mut backoff = Backoff::new().with_jitter(true);
    for _ in 0..9 {
        backoff.next_duration();
    }
    backoff.reset();
    assert_eq!(backoff.next_duration(), Delay::from_millis(100));
}

#[test]
fn direct_delay_agrees_with_the_sequence() {
    let direct = Backoff::new().with_factor(Factor::ratio(3, 2).unwrap());
    let mut backoff = direct.clone();
    backoff.next_duration();
    backoff.next_duration();
    backoff.reset();
    for attempt in 0..30u64 {
        assert_eq!(backoff.current_attempt(), attempt);
        let in_turn = backoff.next_duration();
        assert_eq!(in_turn, direct.duration_for_attempt(attempt));
    }
    assert_eq!(direct.current_attempt(), 0);
}

#[test]
fn duration_for_attempt_leaves_the_counter() {
    let mut backoff = Backoff::new();
    backoff.next_duration();
    assert_eq!(backoff.duration_for_attempt(5), Delay::from_millis(3200));
    assert_eq!(backoff.current_attempt(), 1);
    assert_eq!(backoff.next_duration(), Delay::from_millis(200));
}

#[test]
fn minimum_above_maximum_gives_the_maximum() {
    let backoff = Backoff::new()
        .with_min(Delay::from_secs(5))
        .with_max(Delay::from_secs(2));
    for attempt in [0u64, 1, 2, 50] {
        assert_eq!(backoff.duration_for_attempt(attempt), Delay::from_secs(2));
    }
    let jittered = backoff.with_jitter(true);
    for attempt in [0u64, 1, 2, 50] {
        assert_eq!(jittered.duration_for_attempt(attempt), Delay::from_secs(2));
    }
}

#[test]
fn shrinking_factor_stays_at_the_minimum() {
    let half = Backoff::new().with_factor(Factor::ratio(1, 2).unwrap());
    let zero = Backoff::new().with_factor(Factor::whole(0));
    let one = Backoff::new().with_factor(Factor::whole(1));
    for attempt in [0u64, 1, 2, 3, 1000, u64::MAX] {
        assert_eq!(half.duration_for_attempt(attempt), Delay::from_millis(100));
        assert_eq!(zero.duration_for_attempt(attempt), Delay::from_millis(100));
        assert_eq!(one.duration_for_attempt(attempt), Delay::from_millis(100));
    }
    let jittered = half.with_jitter(true);
    for attempt in [0u64, 1, 7] {
        assert_eq!(jittered.duration_for_attempt(attempt), Delay::from_millis(100));
    }
}

#[test]
fn fractional_factor_is_rounded_once() {
    let backoff = Backoff::new()
        .with_min(Delay::from_nanos(3))
        .with_factor(Factor::ratio(3, 2).unwrap());
    let expected: [u128; 8] = [3, 4, 6, 10, 15, 22, 34, 51];
    for (attempt, nanos) in expected.iter().enumerate() {
        assert_eq!(backoff.duration_for_attempt(attempt as u64).as_nanos(), *nanos);
    }
    let halves = Backoff::new().with_factor(Factor::ratio(3, 2).unwrap());
    assert_eq!(halves.duration_for_attempt(1).as_nanos(), 150_000_000);
    assert_eq!(halves.duration_for_attempt(2).as_nanos(), 225_000_000);
    assert_eq!(halves.duration_for_attempt(3).as_nanos(), 337_500_000);
    assert_eq!(halves.duration_for_attempt(4).as_nanos(), 506_250_000);
    assert_eq!(halves.duration_for_attempt(11).as_nanos(), 8_649_755_859);
    assert_eq!(halves.duration_for_attempt(12), Delay::from_secs(10));
}

#[test]
fn small_minimum_grows_all_the_same() {
    let backoff = Backoff::new()
        .with_min(Delay::from_nanos(1))
        .with_factor(Factor::ratio(3, 2).unwrap());
    assert_eq!(backoff.duration_for_attempt(1).as_nanos(), 1);
    assert_eq!(backoff.duration_for_attempt(2).as_nanos(), 2);
    assert_eq!(backoff.duration_for_attempt(10).as_nanos(), 57);
    assert_eq!(backoff.duration_for_attempt(u64::MAX), Delay::from_secs(10));
    assert_eq!(backoff.peak_for_attempt(u64::MAX).as_nanos(), u128::MAX);
}

#[test]
fn factor_barely_above_one_reaches_the_maximum() {
    let factor = Factor::ratio((1u64 << 32) + 1, 1u64 << 32).unwrap();
    let backoff = Backoff::new().with_factor(factor);
    assert_eq!(backoff.duration_for_attempt(1).as_nanos(), 100_000_000);
    assert_eq!(backoff.duration_for_attempt(1u64 << 33).as_nanos(), 738_905_609);
    assert_eq!(backoff.duration_for_attempt(1u64 << 35), Delay::from_secs(10));
    assert_eq!(
        backoff.peak_for_attempt(1u64 << 35).as_nanos(),
        298_095_798_426
    );
    assert_eq!(backoff.duration_for_attempt(u64::MAX), Delay::from_secs(10));
}

#[test]
fn large_powers_keep_their_digits() {
    let wide = Delay::from_nanos(u128::MAX);
    let tenth = Backoff::new()
        .with_max(wide)
        .with_factor(Factor::ratio(11, 10).unwrap());
    assert_eq!(tenth.duration_for_attempt(29).as_nanos(), 1_586_309_297);
    assert_eq!(tenth.duration_for_attempt(30).as_nanos(), 1_744_940_226);
    assert_eq!(tenth.duration_for_attempt(40).as_nanos(), 4_525_925_556);
    let hundredth = Backoff::new()
        .with_max(wide)
        .with_factor(Factor::ratio(101, 100).unwrap());
    assert_eq!(hundredth.duration_for_attempt(400).as_nanos(), 5_352_411_720);
    let millionth = Backoff::new()
        .with_max(wide)
        .with_factor(Factor::ratio(1_000_001, 1_000_000).unwrap());
    assert_eq!(
        millionth.duration_for_attempt(4_000_000).as_nanos(),
        5_459_804_083
    );
    let halves = Backoff::new()
        .with_max(wide)
        .with_factor(Factor::ratio(3, 2).unwrap());
    assert_eq!(
        halves.duration_for_attempt(63).as_nanos(),
        12_409_358_191_964_894_769
    );
    assert_eq!(
        halves.duration_for_attempt(64).as_nanos(),
        18_614_037_287_947_342_154
    );
    assert_eq!(
        halves.duration_for_attempt(80).as_nanos(),
        12_226_459_805_570_463_568_478
    );
}

#[test]
fn peak_is_the_grown_delay_before_the_bounds() {
    let backoff = Backoff::new();
    assert_eq!(backoff.peak_for_attempt(0), Delay::from_millis(100));
    assert_eq!(backoff.peak_for_attempt(10), Delay::from_millis(102_400));
    assert_eq!(
        backoff.peak_for_attempt(100).as_nanos(),
        100_000_000u128 << 100
    );
    assert_eq!(
        backoff.peak_for_attempt(101).as_nanos(),
        100_000_000u128 << 101
    );
    assert_eq!(backoff.peak_for_attempt(102).as_nanos(), u128::MAX);
    assert_eq!(backoff.peak_for_attempt(103).as_nanos(), u128::MAX);
    assert_eq!(backoff.peak_for_attempt(u64::MAX).as_nanos(), u128::MAX);
    let shrinking = Backoff::new().with_factor(Factor::ratio(1, 3).unwrap());
    assert_eq!(shrinking.peak_for_attempt(4), Delay::from_millis(100));
}

#[test]
fn largest_delay_is_reached_and_kept() {
    let backoff = Backoff::new()
        .with_min(Delay::from_nanos(u128::MAX - 1))
        .with_max(Delay::from_nanos(u128::MAX));
    assert_eq!(backoff.duration_for_attempt(0).as_nanos(), u128::MAX - 1);
    assert_eq!(backoff.duration_for_attempt(1).as_nanos(), u128::MAX);
    assert_eq!(backoff.duration_for_attempt(9).as_nanos(), u128::MAX);
    let jittered = backoff.with_jitter(true);
    let delay = jittered.duration_for_attempt(3).as_nanos();
    assert!(delay >= u128::MAX - 1);
}

#[test]
fn clamp_raises_then_cuts() {
    let backoff = Backoff::new();
    assert_eq!(backoff.clamp(Delay::from_millis(1)), Delay::from_millis(100));
    assert_eq!(backoff.clamp(Delay::from_millis(100)), Delay::from_millis(100));
    assert_eq!(backoff.clamp(Delay::from_millis(2500)), Delay::from_millis(2500));
    assert_eq!(backoff.clamp(Delay::from_secs(10)), Delay::from_secs(10));
    assert_eq!(backoff.clamp(Delay::from_secs(11)), Delay::from_secs(10));
    let inverted = Backoff::new()
        .with_min(Delay::from_secs(3))
        .with_max(Delay::from_secs(1));
    assert_eq!(inverted.clamp(Delay::from_millis(1)), Delay::from_secs(1));
    assert_eq!(inverted.clamp(Delay::from_secs(2)), Delay::from_secs(1));
    assert_eq!(inverted.clamp(Delay::from_secs(7)), Delay::from_secs(1));
}

#[test]
fn builders_change_one_setting_and_keep_the_count() {
    let mut backoff = Backoff::new();
    backoff.next_duration();
    backoff.next_duration();
    let mut backoff = backoff
        .with_min(Delay::from_millis(10))
        .with_max(Delay::from_millis(500))
        .with_factor(Factor::whole(5))
        .with_jitter(false);
    assert_eq!(backoff.current_attempt(), 2);
    assert_eq!(backoff.next_duration(), Delay::from_millis(250));
    assert_eq!(backoff.next_duration(), Delay::from_millis(500));
    assert_eq!(backoff.duration_for_attempt(0), Delay::from_millis(10));
}

#[test]
fn builders_in_any_order_give_the_same_backoff() {
    let one = Backoff::new()
        .with_min(Delay::from_millis(7))
        .with_factor(Factor::whole(4))
        .with_max(Delay::from_secs(3));
    let other = Backoff::new()
        .with_max(Delay::from_secs(3))
        .with_min(Delay::from_millis(7))
        .with_factor(Factor::whole(4));
    for attempt in 0..12u64 {
        assert_eq!(
            one.duration_for_attempt(attempt),
            other.duration_for_attempt(attempt)
        );
    }
    assert_eq!(one.duration_for_attempt(2), Delay::from_millis(112));
}

#[test]
fn clone_counts_by_itself() {
    let mut source = Backoff::new();
    source.next_duration();
    let mut copy = source.clone();
    assert_eq!(copy.current_attempt(), 1);
    assert_eq!(copy.next_duration(), Delay::from_millis(200));
    assert_eq!(copy.current_attempt(), 2);
    assert_eq!(source.current_attempt(), 1);
    assert_eq!(source.next_duration(), Delay::from_millis(200));
}

#[test]
fn counter_counts_every_call() {
    let mut backoff = Backoff::new();
    for calls in 0..100u64 {
        assert_eq!(backoff.current_attempt(), calls);
        backoff.next_duration();
    }
    assert_eq!(backoff.current_attempt(), 100);
}

#[test]
fn delay_is_the_power_rounded_down() {
    // Factor 7/5 from 1000 ns, against the power in whole numbers.
    let backoff = Backoff::new()
        .with_min(Delay::from_nanos(1000))
        .with_max(Delay::from_nanos(u128::MAX))
        .with_factor(Factor::ratio(7, 5).unwrap());
    let mut numer_power: u128 = 1;
    let mut denom_power: u128 = 1;
    for attempt in 0..30u64 {
        let delay = backoff.duration_for_attempt(attempt).as_nanos();
        assert_eq!(delay, 1000 * numer_power / denom_power);
        numer_power *= 7;
        denom_power *= 5;
    }
    assert_eq!(backoff.duration_for_attempt(3).as_nanos(), 2744);
    assert_eq!(backoff.duration_for_attempt(4).as_nanos(), 3841);
    assert_eq!(backoff.duration_for_attempt(5).as_nanos(), 5378);
}

#[test]
fn nothing_is_rounded_where_the_base_divides() {
    // 3 * 5^6 ns grows by 7/5 to 3 * 7^6 ns in six attempts.
    let backoff = Backoff::new()
        .with_min(Delay::from_nanos(3 * 15_625))
        .with_max(Delay::from_nanos(u128::MAX))
        .with_factor(Factor::ratio(7, 5).unwrap());
    assert_eq!(backoff.duration_for_attempt(6).as_nanos(), 3 * 117_649);
    assert_eq!(backoff.duration_for_attempt(1).as_nanos(), 3 * 3_125 * 7);
}
