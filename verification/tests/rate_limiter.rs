use iggy_engine::rate_limiter::{throttle_delay, RateLimiter};

#[test]
fn test_rate_limiter() {
    // 1000 bytes per second, 100 bytes five times, on a clock that moves
    // only while the caller pauses.
    let mut now: u64 = 5_000_000_000;
    let mut limiter = RateLimiter::new(1000, now);
    let start = now;
    for _ in 0..5 {
        let pause = limiter.throttle(100, now);
        now += pause as u64;
    }
    let elapsed = now - start;
    assert!(elapsed >= 450_000_000);
    assert!(elapsed <= 550_000_000);
    assert_eq!(elapsed, 500_000_000);
}

#[test]
fn pause_is_target_less_elapsed() {
    assert_eq!(throttle_delay(1000, 100, 0), 100_000_000);
    assert_eq!(throttle_delay(1000, 100, 40_000_000), 60_000_000);
    assert_eq!(throttle_delay(1000, 100, 100_000_000), 0);
    assert_eq!(throttle_delay(1000, 100, 3_000_000_000), 0);
    assert_eq!(throttle_delay(3, 1, 0), 333_333_333);
    assert_eq!(throttle_delay(1, u64::MAX, 0), u64::MAX as u128 * 1_000_000_000);
    assert_eq!(throttle_delay(1000, 0, 0), 0);
}

#[test]
fn slow_caller_is_not_paused() {
    let mut limiter = RateLimiter::new(1000, 0);
    assert_eq!(limiter.throttle(100, 250_000_000), 0);
    // the previous operation ended at 250 ms; 30 ms later 70 ms are owed
    assert_eq!(limiter.throttle(100, 280_000_000), 70_000_000);
    // the operation before ends at 350 ms; a clock that reads earlier counts as no time passed
    assert_eq!(limiter.throttle(100, 300_000_000), 100_000_000);
}
