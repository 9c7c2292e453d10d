use food_cache::breaker::{BreakerConfig, BreakerState, CircuitBreaker};
use food_cache::calories::total_calorie;
use food_cache::codec::{decode, encode};
use food_cache::orchestrator::{
    handle_cache_lookup, handle_store_outcome, CacheLookup, CachePhase, ReadError, StoreOutcome,
    COLLECTION_KEY,
};
use food_cache::snapshot::{records_from_rows, Record};

fn config() -> BreakerConfig {
    BreakerConfig {
        max_consecutive_failures: 3,
        window_millis: 30_000,
        min_window_calls: 10,
        required_success_percent: 80,
        base_cooldown_millis: 1_000,
        max_cooldown_millis: 30_000,
    }
}

fn sample() -> Vec<Record> {
    vec![
        Record { id: 1, name: b"Apple".to_vec() },
        Record { id: 2, name: b"Banana".to_vec() },
    ]
}

#[test]
fn hit_short_circuits_store() {
    let mut breaker = CircuitBreaker::new(config());
    let cached = encode(&sample());
    let phase = handle_cache_lookup(&mut breaker, CacheLookup::Hit(cached), 100);
    match phase {
        CachePhase::Served(records) => assert_eq!(records, sample()),
        _ => panic!("a valid hit must be served without the store"),
    }
    // Cache outcomes never influence breaker state.
    assert_eq!(breaker.state, BreakerState::Closed);
    assert_eq!(breaker.consecutive_failures, 0);
    assert_eq!(breaker.window.len(), 0);
}

#[test]
fn corrupt_hit_is_a_fatal_decode_error() {
    let mut breaker = CircuitBreaker::new(config());
    let phase = handle_cache_lookup(&mut breaker, CacheLookup::Hit(vec![9, 9, 9]), 100);
    assert!(matches!(phase, CachePhase::Failed(ReadError::CacheDecodeFailure)));
    assert_eq!(breaker.state, BreakerState::Closed);
}

#[test]
fn miss_populates_exactly_once() {
    let mut breaker = CircuitBreaker::new(config());
    let mut store_calls: u32 = 0;
    let phase = handle_cache_lookup(&mut breaker, CacheLookup::Miss, 100);
    assert!(matches!(phase, CachePhase::NeedStore { write_back: true }));
    // The store is consulted exactly once, here.
    store_calls += 1;
    let outcome = StoreOutcome::Fetched(sample());
    let (records, update) =
        handle_store_outcome(&mut breaker, outcome, true, 150, 0).expect("fetch succeeded");
    assert_eq!(records, sample());
    assert_eq!(store_calls, 1);
    let bytes = update.expect("a reachable cache receives the snapshot");
    assert_eq!(decode(&bytes).expect("the write-back must decode"), sample());
}

#[test]
fn cache_down_degrades_gracefully() {
    let mut breaker = CircuitBreaker::new(config());
    let phase = handle_cache_lookup(&mut breaker, CacheLookup::Unavailable, 100);
    assert!(matches!(phase, CachePhase::NeedStore { write_back: false }));
    let outcome = StoreOutcome::Fetched(sample());
    let (records, update) =
        handle_store_outcome(&mut breaker, outcome, false, 150, 0).expect("fetch succeeded");
    assert_eq!(records, sample());
    // No cache write is attempted while the cache is unreachable.
    assert!(update.is_none());
}

#[test]
fn open_breaker_fails_fast() {
    let mut breaker = CircuitBreaker::new(config());
    breaker.record_failure(100, 0);
    breaker.record_failure(200, 0);
    breaker.record_failure(300, 0);
    assert!(matches!(breaker.state, BreakerState::Open { .. }));
    // Concurrent requests in the cool-down all fail without a store call.
    for _ in 0..3 {
        let phase = handle_cache_lookup(&mut breaker, CacheLookup::Miss, 310);
        assert!(matches!(phase, CachePhase::Failed(ReadError::ServiceDegraded)));
    }
    // A hit is still served: the cache path does not go through the breaker.
    let cached = encode(&sample());
    let phase = handle_cache_lookup(&mut breaker, CacheLookup::Hit(cached), 320);
    assert!(matches!(phase, CachePhase::Served(_)));
}

#[test]
fn store_failure_fails_request_and_counts() {
    let mut breaker = CircuitBreaker::new(config());
    let phase = handle_cache_lookup(&mut breaker, CacheLookup::Miss, 100);
    assert!(matches!(phase, CachePhase::NeedStore { write_back: true }));
    let r = handle_store_outcome(&mut breaker, StoreOutcome::Failed, true, 150, 0);
    assert_eq!(r.unwrap_err(), ReadError::StoreFailure);
    assert_eq!(breaker.consecutive_failures, 1);
}

#[test]
fn full_example_scenario() {
    // Cache empty, breaker Closed, store holds Apple and Banana: the request
    // is served with both records and the cache now decodes to the same two.
    let mut breaker = CircuitBreaker::new(config());
    let mut cache: Option<Vec<u8>> = None;
    let lookup = match cache.clone() {
        None => CacheLookup::Miss,
        Some(bytes) => CacheLookup::Hit(bytes),
    };
    let phase = handle_cache_lookup(&mut breaker, lookup, 1_000);
    let write_back = match phase {
        CachePhase::NeedStore { write_back } => write_back,
        _ => panic!("an empty cache with a closed breaker goes to the store"),
    };
    let outcome = StoreOutcome::Fetched(sample());
    let (records, update) =
        handle_store_outcome(&mut breaker, outcome, write_back, 1_050, 0).expect("served");
    assert_eq!(records, sample());
    cache = update;
    let held = cache.expect("the cache was populated");
    assert_eq!(decode(&held).expect("the entry decodes"), sample());
    // A repeat request is now a pure cache hit.
    let phase = handle_cache_lookup(&mut breaker, CacheLookup::Hit(held), 2_000);
    assert!(matches!(phase, CachePhase::Served(_)));
}

#[test]
fn collection_key_is_stable() {
    assert_eq!(COLLECTION_KEY, "all");
}

#[test]
fn rows_map_to_records() {
    let rows: Vec<(i32, Vec<u8>)> = vec![(1, b"Apple".to_vec()), (2, b"Banana".to_vec())];
    let records = records_from_rows(&rows);
    assert_eq!(records, sample());
}

#[test]
fn calorie_sum_is_exact() {
    assert_eq!(total_calorie(&vec![3, 4, 10]), Some(17));
    assert_eq!(total_calorie(&Vec::new()), Some(0));
    assert_eq!(total_calorie(&vec![-5, 2]), Some(-3));
}

#[test]
fn calorie_sum_reports_overflow() {
    assert_eq!(total_calorie(&vec![i32::MAX, 1]), None);
    assert_eq!(total_calorie(&vec![i32::MIN, -1]), None);
    assert_eq!(total_calorie(&vec![i32::MAX, 1, -2]), Some(i32::MAX - 1));
}
