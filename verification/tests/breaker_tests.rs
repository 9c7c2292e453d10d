use food_cache::breaker::{BreakerConfig, BreakerState, CircuitBreaker};

fn config() -> BreakerConfig {
    BreakerConfig {
        max_consecutive_failures: 3,
        window_millis: 30_000,
        min_window_calls: 10,
        required_success_percent: 80,
        base_cooldown_millis: 1_000,
        max_cooldown_millis: 30_000,
    }
}

#[test]
fn starts_closed_and_permitting() {
    let b = CircuitBreaker::new(config());
    assert_eq!(b.state, BreakerState::Closed);
    assert!(b.is_call_permitted(0));
}

#[test]
fn trips_after_consecutive_failures() {
    let mut b = CircuitBreaker::new(config());
    b.record_failure(100, 0);
    b.record_failure(200, 0);
    assert_eq!(b.state, BreakerState::Closed);
    assert!(b.is_call_permitted(250));
    b.record_failure(300, 0);
    // Third consecutive failure reaches the threshold: Closed -> Open.
    assert!(matches!(b.state, BreakerState::Open { .. }));
    assert!(!b.is_call_permitted(301));
}

#[test]
fn success_resets_consecutive_counter() {
    let mut b = CircuitBreaker::new(config());
    b.record_failure(100, 0);
    b.record_failure(200, 0);
    b.record_success(300);
    assert_eq!(b.consecutive_failures, 0);
    b.record_failure(400, 0);
    b.record_failure(500, 0);
    assert_eq!(b.state, BreakerState::Closed);
    b.record_failure(600, 0);
    assert!(matches!(b.state, BreakerState::Open { .. }));
}

#[test]
fn trips_on_windowed_success_rate() {
    // Consecutive-failure policy out of the way: rate policy alone trips.
    let cfg = BreakerConfig { max_consecutive_failures: 100, min_window_calls: 5, ..config() };
    let mut b = CircuitBreaker::new(cfg);
    b.record_success(100);
    b.record_success(200);
    b.record_success(300);
    b.record_failure(400, 0);
    assert_eq!(b.state, BreakerState::Closed);
    // Fifth outcome in the window: 3 of 5 succeeded, 60% < 80%.
    b.record_failure(500, 0);
    assert!(matches!(b.state, BreakerState::Open { .. }));
}

#[test]
fn old_outcomes_leave_the_window() {
    let cfg = BreakerConfig { max_consecutive_failures: 100, min_window_calls: 5, ..config() };
    let mut b = CircuitBreaker::new(cfg);
    b.record_success(100);
    b.record_success(200);
    b.record_success(300);
    b.record_failure(400, 0);
    // Far past the 30 s window: everything above is pruned, so the rate
    // policy sees one outcome and cannot judge.
    b.record_failure(100_000, 0);
    assert_eq!(b.state, BreakerState::Closed);
    assert_eq!(b.window.len(), 1);
}

#[test]
fn open_deadline_uses_equal_jitter() {
    let mut b = CircuitBreaker::new(config());
    b.record_failure(100, 0);
    b.record_failure(200, 0);
    b.record_failure(10_000, 0);
    // Base cool-down 1000 ms, jitter draw 0: deadline is now + 500.
    assert_eq!(b.state, BreakerState::Open { until: 10_500, trips: 0 });
    assert!(!b.is_call_permitted(10_499));
    assert!(b.is_call_permitted(10_500));
}

#[test]
fn half_open_trial_success_closes() {
    let mut b = CircuitBreaker::new(config());
    b.record_failure(100, 0);
    b.record_failure(200, 0);
    b.record_failure(10_000, 0);
    assert!(b.begin_call(10_500));
    assert_eq!(b.state, BreakerState::HalfOpen { trips: 0 });
    b.record_success(10_600);
    assert_eq!(b.state, BreakerState::Closed);
    assert_eq!(b.consecutive_failures, 0);
    assert!(b.is_call_permitted(10_601));
}

#[test]
fn half_open_trial_failure_reopens_with_backoff() {
    let mut b = CircuitBreaker::new(config());
    b.record_failure(100, 0);
    b.record_failure(200, 0);
    b.record_failure(10_000, 0);
    assert!(b.begin_call(10_500));
    b.record_failure(10_600, 0);
    // Backoff doubled: base 2000 ms, jitter draw 0: deadline is now + 1000.
    assert_eq!(b.state, BreakerState::Open { until: 11_600, trips: 1 });
    assert!(!b.is_call_permitted(11_599));
    assert!(b.is_call_permitted(11_600));
}

#[test]
fn open_breaker_rejects_without_state_change() {
    let mut b = CircuitBreaker::new(config());
    b.record_failure(100, 0);
    b.record_failure(200, 0);
    b.record_failure(10_000, 0);
    let before = b.state;
    assert!(!b.begin_call(10_499));
    assert_eq!(b.state, before);
}
