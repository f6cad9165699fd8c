use ssh_knock::rate_limit::TokenBucketLimiter;

const NOW: u64 = 5_000_000;

/// One millisecond, in the nanoseconds the library counts time in.
const MS: u64 = 1_000_000;

#[test]
fn denies_after_capacity_because_invalid_knocks_must_be_rate_limited() {
    let mut limiter = TokenBucketLimiter::new(2, 1, 60_000 * MS);
    let now = NOW;
    assert!(limiter.allow("client", now));
    assert!(limiter.allow("client", now));
    assert!(!limiter.allow("client", now));
}

#[test]
fn refills_after_interval_because_temporary_blocks_must_not_be_permanent() {
    let mut limiter = TokenBucketLimiter::new(1, 1, 60_000 * MS);
    let now = NOW;
    assert!(limiter.allow("client", now));
    assert!(!limiter.allow("client", now));
    assert!(limiter.allow("client", now + 60_000 * MS));
}

#[test]
fn expires_idle_buckets_because_untrusted_sources_must_not_grow_memory_unbounded() {
    let mut limiter = TokenBucketLimiter::new(1, 1, 60_000 * MS);
    let now = NOW;

    assert!(limiter.allow("client-a", now));
    assert!(limiter.allow("client-b", now));
    assert_eq!(limiter.len(), 2);

    assert!(limiter.allow("client-c", now + 121_000 * MS));

    assert_eq!(limiter.len(), 1);
}

#[test]
fn keeps_recent_buckets_because_active_sources_must_remain_rate_limited() {
    let mut limiter = TokenBucketLimiter::new(1, 1, 60_000 * MS);
    let now = NOW;

    assert!(limiter.allow("client-a", now));
    assert!(limiter.allow("client-b", now));
    assert!(limiter.allow("client-a", now + 100_000 * MS));
    assert_eq!(limiter.len(), 2);

    assert!(limiter.allow("client-c", now + 150_000 * MS));

    assert_eq!(limiter.len(), 2);
}

#[test]
fn keys_do_not_share_tokens() {
    let mut limiter = TokenBucketLimiter::new(1, 1, 60_000 * MS);
    assert!(limiter.allow("a", NOW));
    assert!(!limiter.allow("a", NOW));
    assert!(limiter.allow("b", NOW));
}

#[test]
fn refill_counts_whole_intervals_up_to_capacity() {
    let mut limiter = TokenBucketLimiter::new(5, 2, 60_000 * MS);
    for _ in 0..5 {
        assert!(limiter.allow(7u32, NOW));
    }
    assert!(!limiter.allow(7u32, NOW));
    // 59 seconds: not yet an interval.
    assert!(!limiter.allow(7u32, NOW + 59_000 * MS));
    // two whole intervals after the last refill: four tokens.
    let later = NOW + 120_000 * MS;
    for _ in 0..4 {
        assert!(limiter.allow(7u32, later));
    }
    assert!(!limiter.allow(7u32, later));
}

#[test]
fn dropping_an_idle_bucket_changes_no_decision() {
    // A bucket idle long enough to refill completely is dropped, and the key
    // is then judged as a fresh one: the same answer as a full bucket.
    let mut limiter = TokenBucketLimiter::new(2, 2, 60_000 * MS);
    assert!(limiter.allow("k", NOW));
    assert!(limiter.allow("k", NOW));
    assert!(!limiter.allow("k", NOW));
    assert!(limiter.allow("other", NOW + 121_000 * MS));
    assert_eq!(limiter.len(), 1);
    assert!(limiter.allow("k", NOW + 121_000 * MS));
    assert!(limiter.allow("k", NOW + 121_000 * MS));
    assert!(!limiter.allow("k", NOW + 121_000 * MS));
}

#[test]
fn a_bucket_that_would_not_be_full_is_kept() {
    let mut limiter = TokenBucketLimiter::new(10, 1, 60_000 * MS);
    for _ in 0..10 {
        assert!(limiter.allow("k", NOW));
    }
    assert!(limiter.allow("other", NOW + 180_000 * MS));
    assert_eq!(limiter.len(), 2);
    for _ in 0..3 {
        assert!(limiter.allow("k", NOW + 180_000 * MS));
    }
    assert!(!limiter.allow("k", NOW + 180_000 * MS));
}

#[test]
fn other_keys_never_change_a_keys_decisions() {
    let times = [0u64, 10_000, 70_000, 70_000, 200_000, 200_000, 200_000, 260_000];
    let mut mixed = TokenBucketLimiter::new(2, 1, 60_000 * MS);
    let mut alone = TokenBucketLimiter::new(2, 1, 60_000 * MS);
    for (i, t) in times.iter().enumerate() {
        let t = NOW + t * MS;
        for other in ["b", "c"] {
            if i % 2 == 0 {
                mixed.allow(other, t);
            }
        }
        assert_eq!(mixed.allow("a", t), alone.allow("a", t));
        assert_eq!(mixed.allow("a", t), alone.allow("a", t));
    }
}

#[test]
fn refill_restores_refill_tokens_per_interval_up_to_capacity() {
    let mut limiter = TokenBucketLimiter::new(5, 2, 60_000 * MS);
    for _ in 0..5 {
        assert!(limiter.allow("k", NOW));
    }
    assert!(!limiter.allow("k", NOW));
    let later = NOW + 2 * MS * 60_000;
    let allowed = (0..8).filter(|_| limiter.allow("k", later)).count();
    assert_eq!(allowed, 4);
    let mut capped = TokenBucketLimiter::new(5, 2, 60_000 * MS);
    for _ in 0..5 {
        capped.allow("k", NOW);
    }
    let much_later = NOW + 4 * MS * 60_000;
    let allowed = (0..8).filter(|_| capped.allow("k", much_later)).count();
    assert_eq!(allowed, 5);
}

#[test]
fn interval_is_measured_to_the_nanosecond() {
    let mut limiter = TokenBucketLimiter::new(1, 1, 60_000 * MS);
    assert!(limiter.allow("k", NOW));
    assert!(!limiter.allow("k", NOW + 60_000 * MS - 1));
    assert!(limiter.allow("k", NOW + 60_000 * MS));
}
