use backoff::backoff::Backoff;
use backoff::delay::Delay;
use backoff::shared::SharedBackoff;
use std::sync::Arc;

#[test]
fn shared_handle_hands_out_the_sequence() {
    let shared = SharedBackoff::new(Backoff::new());
    assert_eq!(shared.current_attempt(), 0);
    assert_eq!(shared.next_duration(), Delay::from_millis(100));
    assert_eq!(shared.next_duration(), Delay::from_millis(200));
    assert_eq!(shared.next_duration(), Delay::from_millis(400));
    assert_eq!(shared.current_attempt(), 3);
    assert_eq!(shared.duration_for_attempt(1), Delay::from_millis(200));
    assert_eq!(shared.current_attempt(), 3);
    shared.reset();
    assert_eq!(shared.current_attempt(), 0);
    assert_eq!(shared.next_duration(), Delay::from_millis(100));
}

#[test]
fn shared_handle_counts_on_from_the_backoff() {
    let mut backoff = Backoff::new();
    backoff.next_duration();
    backoff.next_duration();
    let shared = SharedBackoff::new(backoff);
    assert_eq!(shared.current_attempt(), 2);
    assert_eq!(shared.next_duration(), Delay::from_millis(400));
}

#[test]
fn callers_of_one_handle_get_every_attempt_once() {
    let callers: u64 = 48;
    let backoff = Backoff::new()
        .with_min(Delay::from_nanos(1))
        .with_max(Delay::from_nanos(u128::MAX));
    let shared = Arc::new(SharedBackoff::new(backoff));
    let holders: Vec<Arc<SharedBackoff>> = (0..callers).map(|_| Arc::clone(&shared)).collect();
    let mut delays: Vec<u128> = holders
        .iter()
        .rev()
        .map(|holder| holder.next_duration().as_nanos())
        .collect();
    delays.sort();
    // Attempt k waits 2^k nanoseconds, so the delays name the attempts.
    let expected: Vec<u128> = (0..callers).map(|attempt| 1u128 << attempt).collect();
    assert_eq!(delays, expected);
    assert_eq!(shared.current_attempt(), callers);
}
