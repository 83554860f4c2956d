use edge_analytics::clock::{Clock, Instant};
use edge_analytics::rate_limit::{RateLimiter, TokenBucket};

#[test]
fn rate_limiter_allows_up_to_capacity() {
    let mut limiter = RateLimiter::new(60);
    for _ in 0..60 {
        assert!(limiter.allow("/test"));
    }
    assert!(!limiter.allow("/test"));
    // Different path gets its own bucket
    assert!(limiter.allow("/other"));
}

#[test]
fn cleanup_retains_recent_buckets() {
    let mut limiter = RateLimiter::new(60);
    limiter.allow("/stale");
    assert_eq!(limiter.len(), 1);
    limiter.cleanup();
    assert_eq!(limiter.len(), 1);
}

#[test]
fn token_bucket_exhaustion() {
    let clock = Clock::start();
    let mut bucket = TokenBucket::new(3, clock.now());
    let now = clock.now();
    assert!(bucket.try_consume(now, 3));
    assert!(bucket.try_consume(now, 3));
    assert!(bucket.try_consume(now, 3));
    assert!(!bucket.try_consume(now, 3));
}

#[test]
fn seconds_between_moments() {
    assert_eq!(Instant::new(61, 0).secs_since(Instant::new(1, 0)), 60);
    assert_eq!(Instant::new(61, 0).secs_since(Instant::new(1, 1)), 59);
    assert_eq!(Instant::new(61, 5).secs_since(Instant::new(1, 5)), 60);
    assert_eq!(Instant::new(1, 4).secs_since(Instant::new(1, 5)), 0);
    assert_eq!(Instant::new(1, 0).secs_since(Instant::new(61, 0)), 0);
    assert_eq!(Instant::new(2, 4).secs_since(Instant::new(1, 5)), 0);
}

#[test]
fn the_clock_does_not_run_back() {
    let clock = Clock::start();
    let first = clock.now();
    let second = clock.now();
    assert_eq!(first.secs_since(second), 0);
    assert!(second.secs_since(first) < 60);
    assert!(first.secs_since(Instant::new(0, 0)) < 60);
}

#[test]
fn bucket_is_refilled_after_a_minute() {
    let mut bucket = TokenBucket::new(1, Instant::new(0, 500));
    assert!(bucket.try_consume(Instant::new(0, 600), 1));
    assert!(!bucket.try_consume(Instant::new(60, 499), 1));
    assert!(bucket.try_consume(Instant::new(60, 500), 1));
    assert!(!bucket.try_consume(Instant::new(60, 500), 1));
    assert!(!bucket.try_consume(Instant::new(119, 0), 1));
    assert!(bucket.try_consume(Instant::new(120, 500), 1));
}

#[test]
fn empty_capacity_lets_nothing_pass() {
    let mut bucket = TokenBucket::new(0, Instant::new(0, 0));
    assert!(!bucket.try_consume(Instant::new(0, 0), 0));
    assert!(!bucket.try_consume(Instant::new(100, 0), 0));
}

#[test]
fn two_fillings_can_pass_within_a_minute() {
    let mut bucket = TokenBucket::new(5, Instant::new(0, 0));
    let mut passed = 0;
    for _ in 0..9 {
        if bucket.try_consume(Instant::new(59, 0), 5) {
            passed += 1;
        }
    }
    for _ in 0..9 {
        if bucket.try_consume(Instant::new(60, 0), 5) {
            passed += 1;
        }
    }
    assert_eq!(passed, 10);
}

#[test]
fn cleanup_forgets_idle_buckets() {
    let mut limiter = RateLimiter::new(2);
    assert!(limiter.allow_at("/old", Instant::new(0, 0)));
    assert!(limiter.allow_at("/new", Instant::new(200, 0)));
    assert!(limiter.allow_at("/old", Instant::new(10, 0)));
    limiter.cleanup_at(Instant::new(299, 999_999_999));
    assert_eq!(limiter.len(), 2);
    limiter.cleanup_at(Instant::new(300, 0));
    assert_eq!(limiter.len(), 1);
    limiter.cleanup_at(Instant::new(500, 0));
    assert_eq!(limiter.len(), 0);
}

#[test]
fn cleanup_changes_no_decision() {
    let times = [0, 0, 0, 30, 59, 310, 310, 310, 311, 900, 901];
    let mut kept = RateLimiter::new(2);
    let mut cleaned = RateLimiter::new(2);
    for secs in times {
        let now = Instant::new(secs, 0);
        cleaned.cleanup_at(now);
        for key in ["/a", "/b"] {
            assert_eq!(kept.allow_at(key, now), cleaned.allow_at(key, now));
        }
    }
}

#[test]
fn keys_do_not_share_a_bucket() {
    let now = Instant::new(0, 0);
    let mut limiter = RateLimiter::new(1);
    assert!(limiter.allow_at("/a", now));
    assert!(limiter.allow_at("/b", now));
    assert!(!limiter.allow_at("/a", now));
    assert!(!limiter.allow_at("/b", now));
    assert_eq!(limiter.len(), 2);
}

#[test]
fn limiter_goes_by_its_clock() {
    let mut limiter = RateLimiter::new(1);
    let clock = limiter.clock();
    assert!(limiter.allow_at("/a", clock.now()));
    assert!(!limiter.allow("/a"));
}
