//! Per-key token buckets that limit how often a key may act.
//!
//! Times are nanoseconds on a monotonic clock; durations are nanoseconds.
use crate::knock::elapsed;
use crate::store::KeyedStore;
use vstd::laws_eq::*;
use vstd::prelude::*;

verus! {

/// Nanoseconds in a second.
pub const NANOS_PER_SECOND: u64 = 1_000_000_000;

/// The tokens left to a key and when they were last refilled.
#[derive(Clone, Copy, Debug, PartialEq, Eq, Structural)]
pub struct Bucket {
    pub tokens: u32,
    pub last_refill: u64,
}

/// The settings a limiter was made with.
pub struct LimiterSettings {
    pub capacity: u32,
    pub refill: u32,
    pub interval: u64,
}

/// `a * b`, or `u32::MAX` when that is larger.
pub open spec fn saturating_product(a: int, b: int) -> int {
    if a * b > u32::MAX {
        u32::MAX as int
    } else {
        a * b
    }
}

/// The smaller of two integers.
pub open spec fn min_int(a: int, b: int) -> int {
    if a <= b {
        a
    } else {
        b
    }
}

/// A bucket after refilling at `now`: once at least one interval has passed,
/// `refill` tokens per whole interval (counted in whole seconds) are added,
/// up to `capacity`, and the refill time moves to `now`.
pub open spec fn refilled(cfg: LimiterSettings, b: Bucket, now: u64) -> Bucket {
    let e = elapsed(now, b.last_refill);
    if e >= cfg.interval {
        let per = if cfg.interval / NANOS_PER_SECOND >= 1 {
            cfg.interval / NANOS_PER_SECOND
        } else {
            1
        };
        let intervals = (e / (NANOS_PER_SECOND as int)) / (per as int);
        let add = saturating_product(cfg.refill as int, min_int(intervals, u32::MAX as int));
        Bucket {
            tokens: min_int(cfg.capacity as int, min_int(b.tokens + add, u32::MAX as int)) as u32,
            last_refill: now,
        }
    } else {
        b
    }
}

/// A bucket left alone for more than two intervals, which refilling at `now`
/// would bring back to a full, fresh bucket.
pub open spec fn bucket_idle(cfg: LimiterSettings, b: Bucket, now: u64) -> bool {
    elapsed(now, b.last_refill) > 2 * cfg.interval && refilled(cfg, b, now).tokens == cfg.capacity
}

/// The buckets that survive the idle sweep at `now`.
pub open spec fn sweep_buckets<K>(cfg: LimiterSettings, m: Map<K, Bucket>, now: u64) -> Map<K, Bucket> {
    Map::new(|k: K| m.contains_key(k) && !bucket_idle(cfg, m[k], now), |k: K| m[k])
}

/// The bucket a key is judged by: its own, or a full one started at `now`.
pub open spec fn bucket_or_fresh<K>(cfg: LimiterSettings, m: Map<K, Bucket>, key: K, now: u64) -> Bucket {
    if m.contains_key(key) {
        m[key]
    } else {
        Bucket { tokens: cfg.capacity, last_refill: now }
    }
}

/// Judging one request of `key` against a bucket: refill, then spend a token if any is left.
pub open spec fn spend(cfg: LimiterSettings, b: Bucket, now: u64) -> (Bucket, bool) {
    let r = refilled(cfg, b, now);
    if r.tokens == 0 {
        (r, false)
    } else {
        (Bucket { tokens: (r.tokens - 1) as u32, last_refill: r.last_refill }, true)
    }
}

/// The buckets and the decision after `key` asks at `now`.
pub open spec fn allow_spec<K>(cfg: LimiterSettings, m: Map<K, Bucket>, key: K, now: u64) -> (
    Map<K, Bucket>,
    bool,
) {
    let swept = sweep_buckets(cfg, m, now);
    let (b, ok) = spend(cfg, bucket_or_fresh(cfg, swept, key, now), now);
    (swept.insert(key, b), ok)
}

fn refill_bucket(capacity: u32, refill: u32, interval: u64, b: Bucket, now: u64) -> (r: Bucket)
    ensures
        r == refilled(LimiterSettings { capacity, refill, interval }, b, now),
{
    let e: u64 = if now >= b.last_refill {
        now - b.last_refill
    } else {
        0
    };
    if e >= interval {
        let per: u64 = if interval / NANOS_PER_SECOND >= 1 {
            interval / NANOS_PER_SECOND
        } else {
            1
        };
        let intervals: u64 = (e / NANOS_PER_SECOND) / per;
        let capped: u64 = if intervals > 4294967295u64 {
            4294967295u64
        } else {
            intervals
        };
        assert((refill as u64) * capped <= 4294967295u64 * 4294967295u64) by (nonlinear_arith)
            requires
                refill <= 4294967295u64,
                capped <= 4294967295u64,
        ;
        let product: u64 = (refill as u64) * capped;
        let add: u64 = if product > 4294967295u64 {
            4294967295u64
        } else {
            product
        };
        let sum: u64 = b.tokens as u64 + add;
        let sat: u64 = if sum > 4294967295u64 {
            4294967295u64
        } else {
            sum
        };
        let tokens: u64 = if (capacity as u64) <= sat {
            capacity as u64
        } else {
            sat
        };
        Bucket { tokens: tokens as u32, last_refill: now }
    } else {
        b
    }
}

/// A token bucket per key.
pub struct TokenBucketLimiter<K> {
    capacity: u32,
    refill: u32,
    interval: u64,
    buckets: KeyedStore<K, Bucket>,
}

impl<K> TokenBucketLimiter<K> {
    /// The settings the limiter was made with.
    pub closed spec fn settings(&self) -> LimiterSettings {
        LimiterSettings { capacity: self.capacity, refill: self.refill, interval: self.interval }
    }

    /// The bucket of each key.
    pub closed spec fn buckets(&self) -> Map<K, Bucket> {
        self.buckets@
    }

    /// Well-formedness: no bucket holds more than the capacity.
    pub closed spec fn wf(&self) -> bool {
        &&& self.buckets.wf()
        &&& forall|k: K| #[trigger] self.buckets@.contains_key(k) ==> self.buckets@[k].tokens <= self.capacity
    }

    /// Creates a token bucket limiter: `capacity` tokens per key, `refill`
    /// tokens restored every `interval` nanoseconds.
    pub fn new(capacity: u32, refill: u32, interval: u64) -> (r: Self)
        ensures
            r.wf(),
            r.settings() == (LimiterSettings { capacity, refill, interval }),
            r.buckets() == Map::<K, Bucket>::empty(),
    {
        TokenBucketLimiter { capacity, refill, interval, buckets: KeyedStore::new() }
    }

    /// Returns the number of keys that hold a bucket.
    pub fn len(&self) -> (r: usize)
        requires
            self.wf(),
        ensures
            self.buckets().dom().finite(),
            r == self.buckets().len(),
    {
        self.buckets.len()
    }

    /// Returns true when the key may consume one token.
    pub fn allow(&mut self, key: K, now: u64) -> (r: bool)
        where
            K: PartialEq,
        requires
            old(self).wf(),
            obeys_concrete_eq::<K>(),
        ensures
            final(self).wf(),
            final(self).settings() == old(self).settings(),
            (final(self).buckets(), r) == allow_spec(old(self).settings(), old(self).buckets(), key, now),
    {
        let cfg = Ghost(self.settings());
        let ghost before = self.buckets@;
        let capacity = self.capacity;
        let refill = self.refill;
        let interval = self.interval;
        let idle = |_k: &K, b: &Bucket| -> (keep: bool)
            ensures
                keep == !bucket_idle(LimiterSettings { capacity, refill, interval }, *b, now),
            {
                let e: u64 = if now >= b.last_refill {
                    now - b.last_refill
                } else {
                    0
                };
                let r = refill_bucket(capacity, refill, interval, *b, now);
                !(e > interval && e - interval > interval && r.tokens == capacity)
            };
        self.buckets.retain(idle);
        proof {
            assert(self.buckets@ =~= sweep_buckets(cfg@, before, now));
        }
        let current = match self.buckets.get(&key) {
            Some(b) => *b,
            None => Bucket { tokens: self.capacity, last_refill: now },
        };
        let refreshed = refill_bucket(capacity, refill, interval, current, now);
        if refreshed.tokens == 0 {
            self.buckets.insert(key, refreshed);
            false
        } else {
            self.buckets.insert(
                key,
                Bucket { tokens: refreshed.tokens - 1, last_refill: refreshed.last_refill },
            );
            true
        }
    }
}

} // verus!

verus! {

/// Dropping idle buckets never changes a decision: a key is judged, and its
/// bucket left, exactly as if no bucket had been dropped.
pub proof fn lemma_sweep_unobservable<K>(cfg: LimiterSettings, m: Map<K, Bucket>, key: K, now: u64)
    ensures
        spend(cfg, bucket_or_fresh(cfg, sweep_buckets(cfg, m, now), key, now), now) == spend(
            cfg,
            bucket_or_fresh(cfg, m, key, now),
            now,
        ),
{
    let swept = sweep_buckets(cfg, m, now);
    if m.contains_key(key) && bucket_idle(cfg, m[key], now) {
        let fresh = Bucket { tokens: cfg.capacity, last_refill: now };
        assert(refilled(cfg, fresh, now) == refilled(cfg, m[key], now));
    }
}

/// No token appears without time passing: a bucket refilled at `now` and
/// asked again at `now` (with a nonzero interval) only spends.
pub proof fn lemma_no_refill_without_time(cfg: LimiterSettings, b: Bucket, now: u64)
    requires
        cfg.interval > 0,
        b.last_refill == now,
    ensures
        spend(cfg, b, now) == (if b.tokens == 0 {
            (b, false)
        } else {
            (Bucket { tokens: (b.tokens - 1) as u32, last_refill: now }, true)
        }),
{
}

/// Asking for one key leaves every other key's bucket as it was, unless that
/// bucket was idle and dropped.
pub proof fn lemma_allow_isolates_keys<K>(
    cfg: LimiterSettings,
    m: Map<K, Bucket>,
    key: K,
    now: u64,
    other: K,
)
    requires
        other != key,
    ensures
        ({
            let after = allow_spec(cfg, m, key, now).0;
            &&& after.contains_key(other) ==> m.contains_key(other) && after[other] == m[other]
            &&& m.contains_key(other) && !after.contains_key(other) ==> bucket_idle(cfg, m[other], now)
        }),
{
}

/// A well-formed limiter holds no bucket above its capacity.
pub proof fn lemma_tokens_bounded<K>(l: &TokenBucketLimiter<K>)
    requires
        l.wf(),
    ensures
        forall|k: K| #[trigger]
            l.buckets().contains_key(k) ==> l.buckets()[k].tokens <= l.settings().capacity,
{
}

/// A full bucket started at `now`.
pub open spec fn fresh_bucket(cfg: LimiterSettings, now: u64) -> Bucket {
    Bucket { tokens: cfg.capacity, last_refill: now }
}

proof fn lemma_idle_stays(cfg: LimiterSettings, b: Bucket, t: u64, t2: u64)
    requires
        bucket_idle(cfg, b, t),
        t <= t2,
    ensures
        bucket_idle(cfg, b, t2),
        refilled(cfg, b, t2) == refilled(cfg, fresh_bucket(cfg, t2), t2),
{
    let e = elapsed(t, b.last_refill);
    let e2 = elapsed(t2, b.last_refill);
    assert(e <= e2);
    let per: int = if cfg.interval / NANOS_PER_SECOND >= 1 {
        (cfg.interval / NANOS_PER_SECOND) as int
    } else {
        1
    };
    vstd::arithmetic::div_mod::lemma_div_is_ordered(e, e2, (NANOS_PER_SECOND as int));
    vstd::arithmetic::div_mod::lemma_div_is_ordered(e / (NANOS_PER_SECOND as int), e2 / (NANOS_PER_SECOND as int), per);
    let i1 = (e / (NANOS_PER_SECOND as int)) / per;
    let i2 = (e2 / (NANOS_PER_SECOND as int)) / per;
    let a1 = min_int(i1, u32::MAX as int);
    let a2 = min_int(i2, u32::MAX as int);
    assert(a1 <= a2);
    let r = cfg.refill as int;
    assert(r * a1 <= r * a2) by (nonlinear_arith)
        requires
            0 <= r,
            a1 <= a2,
    ;
    assert(r * 0 == 0) by (nonlinear_arith);
}

/// How the buckets of two limiters stand toward key `k` at time `t`: the
/// same bucket, none in either, or only one, idle at `t` (so that it judges
/// as a fresh one would).
pub open spec fn same_for_key<K>(cfg: LimiterSettings, m1: Map<K, Bucket>, m2: Map<K, Bucket>, k: K, t: u64) -> bool {
    ||| m1.contains_key(k) && m2.contains_key(k) && m1[k] == m2[k]
    ||| !m1.contains_key(k) && !m2.contains_key(k)
    ||| m1.contains_key(k) && !m2.contains_key(k) && bucket_idle(cfg, m1[k], t)
    ||| !m1.contains_key(k) && m2.contains_key(k) && bucket_idle(cfg, m2[k], t)
}

/// The buckets after a sequence of requests (key and time) on a fresh
/// limiter, and the decision of each request.
pub open spec fn run_requests<K>(cfg: LimiterSettings, calls: Seq<(K, u64)>) -> (Map<K, Bucket>, Seq<bool>)
    decreases calls.len(),
{
    if calls.len() == 0 {
        (Map::empty(), Seq::empty())
    } else {
        let prev = run_requests(cfg, calls.drop_last());
        let step = allow_spec(cfg, prev.0, calls.last().0, calls.last().1);
        (step.0, prev.1.push(step.1))
    }
}

/// The requests of key `k`, in order.
pub open spec fn requests_of<K>(calls: Seq<(K, u64)>, k: K) -> Seq<(K, u64)>
    decreases calls.len(),
{
    if calls.len() == 0 {
        Seq::empty()
    } else {
        let prev = requests_of(calls.drop_last(), k);
        if calls.last().0 == k {
            prev.push(calls.last())
        } else {
            prev
        }
    }
}

/// The decisions, among `decisions`, of the requests of key `k`, in order.
pub open spec fn decisions_of<K>(calls: Seq<(K, u64)>, decisions: Seq<bool>, k: K) -> Seq<bool>
    decreases calls.len(),
{
    if calls.len() == 0 || decisions.len() == 0 {
        Seq::empty()
    } else {
        let prev = decisions_of(calls.drop_last(), decisions.drop_last(), k);
        if calls.last().0 == k {
            prev.push(decisions.last())
        } else {
            prev
        }
    }
}

/// The requests come in time order.
pub open spec fn in_time_order<K>(calls: Seq<(K, u64)>) -> bool {
    forall|i: int, j: int| 0 <= i <= j < calls.len() ==> #[trigger] calls[i].1 <= #[trigger] calls[j].1
}

proof fn lemma_same_for_key_later<K>(cfg: LimiterSettings, m1: Map<K, Bucket>, m2: Map<K, Bucket>, k: K, t: u64, t2: u64)
    requires
        same_for_key(cfg, m1, m2, k, t),
        t <= t2,
    ensures
        same_for_key(cfg, m1, m2, k, t2),
{
    if m1.contains_key(k) && !m2.contains_key(k) {
        lemma_idle_stays(cfg, m1[k], t, t2);
    }
    if !m1.contains_key(k) && m2.contains_key(k) {
        lemma_idle_stays(cfg, m2[k], t, t2);
    }
}

proof fn lemma_requests_isolated<K>(cfg: LimiterSettings, calls: Seq<(K, u64)>, k: K)
    requires
        in_time_order(calls),
    ensures
        run_requests(cfg, calls).1.len() == calls.len(),
        decisions_of(calls, run_requests(cfg, calls).1, k) == run_requests(cfg, requests_of(calls, k)).1,
        calls.len() == 0 || same_for_key(
            cfg,
            run_requests(cfg, calls).0,
            run_requests(cfg, requests_of(calls, k)).0,
            k,
            calls.last().1,
        ),
        calls.len() == 0 ==> run_requests(cfg, requests_of(calls, k)).0 == Map::<K, Bucket>::empty(),
    decreases calls.len(),
{
    if calls.len() > 0 {
        let prev = calls.drop_last();
        assert(in_time_order(prev)) by {
            assert forall|i: int, j: int| 0 <= i <= j < prev.len() implies #[trigger] prev[i].1
                <= #[trigger] prev[j].1 by {
                assert(prev[i] == calls[i] && prev[j] == calls[j]);
            }
        }
        lemma_requests_isolated(cfg, prev, k);
        let c = calls.last();
        let t = c.1;
        let full = run_requests(cfg, prev);
        let only_prev = requests_of(prev, k);
        let only = run_requests(cfg, only_prev);
        let m1 = full.0;
        let m2 = only.0;
        if prev.len() > 0 {
            assert(prev.last().1 <= t) by {
                assert(prev.last() == calls[prev.len() - 1]);
            }
            lemma_same_for_key_later(cfg, m1, m2, k, prev.last().1, t);
        }
        assert(same_for_key(cfg, m1, m2, k, t));
        let after = run_requests(cfg, calls);
        assert(after.1.drop_last() =~= full.1);
        if c.0 == k {
            let only_calls = requests_of(calls, k);
            assert(only_calls == only_prev.push(c));
            assert(only_calls.drop_last() =~= only_prev);
            lemma_sweep_unobservable(cfg, m1, k, t);
            lemma_sweep_unobservable(cfg, m2, k, t);
            if m1.contains_key(k) && !m2.contains_key(k) {
                lemma_idle_stays(cfg, m1[k], t, t);
            }
            if !m1.contains_key(k) && m2.contains_key(k) {
                lemma_idle_stays(cfg, m2[k], t, t);
            }
            assert(spend(cfg, bucket_or_fresh(cfg, m1, k, t), t) == spend(cfg, bucket_or_fresh(cfg, m2, k, t), t));
            let a1 = allow_spec(cfg, m1, k, t);
            let a2 = allow_spec(cfg, m2, k, t);
            assert(a1.1 == a2.1);
            assert(a1.0[k] == a2.0[k]);
        } else {
            assert(requests_of(calls, k) == only_prev);
            lemma_allow_isolates_keys(cfg, m1, c.0, t, k);
            let m1n = allow_spec(cfg, m1, c.0, t).0;
            if m1.contains_key(k) && m2.contains_key(k) && m1[k] == m2[k] && !m1n.contains_key(k) {
                assert(bucket_idle(cfg, m2[k], t));
            }
        }
    } else {
        assert(requests_of(calls, k) =~= Seq::<(K, u64)>::empty());
    }
}

/// One key's requests never spend or refill another key's tokens: over any
/// sequence of requests in time order, the decisions for key `k` are exactly
/// those that `k`'s requests alone would get. So two sequences that differ
/// only in other keys' requests give `k` the same decisions.
pub proof fn lemma_keys_isolated<K>(cfg: LimiterSettings, calls: Seq<(K, u64)>, k: K)
    requires
        in_time_order(calls),
    ensures
        decisions_of(calls, run_requests(cfg, calls).1, k) == run_requests(cfg, requests_of(calls, k)).1,
{
    lemma_requests_isolated(cfg, calls, k);
}

/// The buckets and decisions after `n` requests of `key`, all at `now`.
pub open spec fn requests_at<K>(cfg: LimiterSettings, m: Map<K, Bucket>, key: K, now: u64, n: nat) -> (
    Map<K, Bucket>,
    Seq<bool>,
)
    decreases n,
{
    if n == 0 {
        (m, Seq::empty())
    } else {
        let prev = requests_at(cfg, m, key, now, (n - 1) as nat);
        let step = allow_spec(cfg, prev.0, key, now);
        (step.0, prev.1.push(step.1))
    }
}

proof fn lemma_requests_at<K>(cfg: LimiterSettings, m: Map<K, Bucket>, key: K, now: u64, n: nat)
    requires
        n >= 1,
        cfg.interval > 0,
        m.contains_key(key),
        refilled(cfg, m[key], now).last_refill == now,
    ensures
        ({
            let first = refilled(cfg, m[key], now).tokens as int;
            let after = requests_at(cfg, m, key, now, n);
            &&& after.0.contains_key(key)
            &&& after.0[key] == Bucket {
                tokens: (if n <= first {
                    first - n
                } else {
                    0
                }) as u32,
                last_refill: now,
            }
            &&& after.1 == Seq::new(n, |j: int| j < first)
        }),
    decreases n,
{
    let first = refilled(cfg, m[key], now).tokens as int;
    let prev = requests_at(cfg, m, key, now, (n - 1) as nat);
    if n == 1 {
        lemma_sweep_unobservable(cfg, m, key, now);
        assert(prev.1 =~= Seq::<bool>::empty());
    } else {
        lemma_requests_at(cfg, m, key, now, (n - 1) as nat);
        let b = prev.0[key];
        lemma_sweep_unobservable(cfg, prev.0, key, now);
        assert(refilled(cfg, b, now) == b);
    }
    let after = requests_at(cfg, m, key, now, n);
    assert(after.1 =~= Seq::new(n, |j: int| j < first));
}

/// A bucket gets `refill` tokens back per elapsed interval, up to capacity:
/// a key whose tokens ran out at `t` (with the interval a whole number of
/// seconds) and that asks nothing more until `t` plus `intervals` whole
/// intervals is then allowed exactly `min(capacity, intervals * refill)` of
/// its requests at that time, and refused the rest.
pub proof fn lemma_refill_per_interval<K>(
    cfg: LimiterSettings,
    m: Map<K, Bucket>,
    key: K,
    t: u64,
    intervals: nat,
    n: nat,
)
    requires
        cfg.interval >= NANOS_PER_SECOND,
        cfg.interval % NANOS_PER_SECOND == 0,
        m.contains_key(key),
        m[key] == (Bucket { tokens: 0, last_refill: t }),
        intervals >= 1,
        t + intervals * cfg.interval <= u64::MAX,
    ensures
        requests_at(cfg, m, key, (t + intervals * cfg.interval) as u64, n).1 == Seq::new(
            n,
            |j: int| j < min_int(cfg.capacity as int, intervals * cfg.refill),
        ),
{
    let now = (t + intervals * cfg.interval) as u64;
    let i = cfg.interval as int;
    let x = intervals as int;
    let per = i / (NANOS_PER_SECOND as int);
    assert(per >= 1);
    assert(x * i >= i) by (nonlinear_arith)
        requires
            x >= 1,
            i >= (NANOS_PER_SECOND as int),
    ;
    assert(i == per * (NANOS_PER_SECOND as int));
    assert((x * i) / (NANOS_PER_SECOND as int) == x * per) by (nonlinear_arith)
        requires
            i == per * (NANOS_PER_SECOND as int),
    ;
    assert((x * per) / per == x) by (nonlinear_arith)
        requires
            per >= 1,
    ;
    let r = cfg.refill as int;
    let c = cfg.capacity as int;
    let a = min_int(x, u32::MAX as int);
    assert(r * a <= r * x) by (nonlinear_arith)
        requires
            0 <= r,
            a <= x,
    ;
    if x > u32::MAX as int && r >= 1 {
        assert(r * a >= a) by (nonlinear_arith)
            requires
                r >= 1,
                a >= 0,
        ;
    }
    if r == 0 {
        assert(r * a == 0 && r * x == 0) by (nonlinear_arith)
            requires
                r == 0,
        ;
    }
    let first = refilled(cfg, m[key], now).tokens as int;
    assert(first == min_int(c, x * r));
    if n >= 1 {
        lemma_requests_at(cfg, m, key, now, n);
    } else {
        assert(requests_at(cfg, m, key, now, n).1 =~= Seq::new(n, |j: int| j < min_int(c, x * r)));
    }
}

/// Refilling adds to what is left: a key whose bucket held `tokens` when it
/// was last refilled at `t` (with the interval a whole number of seconds),
/// and that asks nothing more until `t` plus `intervals` whole intervals, then
/// holds `min(capacity, tokens + intervals * refill)` tokens, and is allowed
/// exactly that many of its requests at that time.
pub proof fn lemma_refill_adds_to_remaining<K>(
    cfg: LimiterSettings,
    m: Map<K, Bucket>,
    key: K,
    t: u64,
    tokens: u32,
    intervals: nat,
    n: nat,
)
    requires
        cfg.interval >= NANOS_PER_SECOND,
        cfg.interval % NANOS_PER_SECOND == 0,
        m.contains_key(key),
        m[key] == (Bucket { tokens, last_refill: t }),
        intervals >= 1,
        t + intervals * cfg.interval <= u64::MAX,
    ensures
        refilled(cfg, m[key], (t + intervals * cfg.interval) as u64).tokens == min_int(
            cfg.capacity as int,
            tokens + intervals * cfg.refill,
        ),
        requests_at(cfg, m, key, (t + intervals * cfg.interval) as u64, n).1 == Seq::new(
            n,
            |j: int| j < min_int(cfg.capacity as int, tokens + intervals * cfg.refill),
        ),
{
    let now = (t + intervals * cfg.interval) as u64;
    let i = cfg.interval as int;
    let x = intervals as int;
    let per = i / (NANOS_PER_SECOND as int);
    assert(per >= 1);
    assert(x * i >= i) by (nonlinear_arith)
        requires
            x >= 1,
            i >= (NANOS_PER_SECOND as int),
    ;
    assert(i == per * (NANOS_PER_SECOND as int));
    assert((x * i) / (NANOS_PER_SECOND as int) == x * per) by (nonlinear_arith)
        requires
            i == per * (NANOS_PER_SECOND as int),
    ;
    assert((x * per) / per == x) by (nonlinear_arith)
        requires
            per >= 1,
    ;
    let r = cfg.refill as int;
    let c = cfg.capacity as int;
    let a = min_int(x, u32::MAX as int);
    assert(r * a <= r * x) by (nonlinear_arith)
        requires
            0 <= r,
            a <= x,
    ;
    if r >= 1 {
        assert(r * a >= a && r * x >= x) by (nonlinear_arith)
            requires
                r >= 1,
                a >= 0,
                x >= 0,
        ;
    }
    if r == 0 {
        assert(r * a == 0 && r * x == 0) by (nonlinear_arith)
            requires
                r == 0,
        ;
    }
    assert(x * r == r * x) by (nonlinear_arith);
    let first = refilled(cfg, m[key], now).tokens as int;
    assert(first == min_int(c, tokens + x * r));
    if n >= 1 {
        lemma_requests_at(cfg, m, key, now, n);
    } else {
        assert(requests_at(cfg, m, key, now, n).1 =~= Seq::new(n, |j: int| j < min_int(c, tokens + x * r)));
    }
}

proof fn lemma_fresh_requests<K>(cfg: LimiterSettings, m: Map<K, Bucket>, key: K, now: u64, n: nat)
    requires
        cfg.interval > 0,
        !m.contains_key(key),
    ensures
        n >= 1 ==> {
            let after = requests_at(cfg, m, key, now, n);
            &&& after.0.contains_key(key)
            &&& after.0[key] == Bucket {
                tokens: (if n <= cfg.capacity {
                    cfg.capacity - n
                } else {
                    0
                }) as u32,
                last_refill: now,
            }
        },
        requests_at(cfg, m, key, now, n).1 == Seq::new(n, |j: int| j < cfg.capacity),
    decreases n,
{
    let prev = requests_at(cfg, m, key, now, (n - 1) as nat);
    if n == 0 {
        assert(requests_at(cfg, m, key, now, n).1 =~= Seq::new(n, |j: int| j < cfg.capacity));
    } else {
        lemma_fresh_requests(cfg, m, key, now, (n - 1) as nat);
        if n == 1 {
            assert(prev.1 =~= Seq::<bool>::empty());
            lemma_sweep_unobservable(cfg, m, key, now);
        } else {
            lemma_sweep_unobservable(cfg, prev.0, key, now);
        }
        let after = requests_at(cfg, m, key, now, n);
        assert(after.1 =~= Seq::new(n, |j: int| j < cfg.capacity));
    }
}

/// A key the limiter has no bucket for starts with a full bucket: of its
/// requests at one instant, exactly the first `capacity` are allowed.
pub proof fn lemma_fresh_key_gets_capacity<K>(cfg: LimiterSettings, m: Map<K, Bucket>, key: K, now: u64, n: nat)
    requires
        cfg.interval > 0,
        !m.contains_key(key),
    ensures
        requests_at(cfg, m, key, now, n).1 == Seq::new(n, |j: int| j < cfg.capacity),
{
    lemma_fresh_requests(cfg, m, key, now, n);
}

} // verus!
