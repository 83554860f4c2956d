//! Limits on how often a path may be counted.
use crate::clock::{self, Clock, Instant};
use vstd::hash_map::StringHashMap;
use vstd::prelude::*;

verus! {

/// Seconds after which a bucket is filled again.
pub const BUCKET_WINDOW_SECS: u64 = 60;

/// Seconds without a refill after which a bucket is forgotten.
pub const BUCKET_IDLE_SECS: u64 = 300;

/// A number of requests that may still pass, filled up again once a minute.
#[derive(Clone, Copy)]
pub struct TokenBucket {
    tokens: u32,
    last_refill: Instant,
}

/// What a [`TokenBucket`] holds.
pub struct BucketState {
    /// The requests that may still pass.
    pub tokens: nat,
    /// When the bucket was last filled.
    pub last_refill: Instant,
}

impl View for TokenBucket {
    type V = BucketState;

    closed spec fn view(&self) -> BucketState {
        BucketState { tokens: self.tokens as nat, last_refill: self.last_refill }
    }
}

impl BucketState {
    /// A bucket that was just filled.
    pub open spec fn full(capacity: nat, now: Instant) -> BucketState {
        BucketState { tokens: capacity, last_refill: now }
    }

    /// The bucket at `now`: filled again if a minute has passed since it was last filled.
    pub open spec fn refilled(self, now: Instant, capacity: nat) -> BucketState {
        if clock::elapsed_secs(now, self.last_refill) >= 60 {
            BucketState::full(capacity, now)
        } else {
            self
        }
    }

    /// Whether a request at `now` passes.
    pub open spec fn grants(self, now: Instant, capacity: nat) -> bool {
        self.refilled(now, capacity).tokens > 0
    }

    /// The bucket after a request at `now`.
    pub open spec fn after(self, now: Instant, capacity: nat) -> BucketState {
        let filled = self.refilled(now, capacity);
        if filled.tokens > 0 {
            BucketState { tokens: (filled.tokens - 1) as nat, last_refill: filled.last_refill }
        } else {
            filled
        }
    }
}

impl TokenBucket {
    /// A bucket that is filled at `now`.
    pub fn new(capacity: u32, now: Instant) -> (r: TokenBucket)
        ensures
            r@ == BucketState::full(capacity as nat, now),
    {
        TokenBucket { tokens: capacity, last_refill: now }
    }

    /// Takes a token for a request at `now`, and tells whether there was one.
    pub fn try_consume(&mut self, now: Instant, capacity: u32) -> (granted: bool)
        ensures
            granted == old(self)@.grants(now, capacity as nat),
            final(self)@ == old(self)@.after(now, capacity as nat),
    {
        let elapsed: u64 = now.secs_since(self.last_refill);
        if elapsed >= BUCKET_WINDOW_SECS {
            self.tokens = capacity;
            self.last_refill = now;
        }
        if self.tokens > 0 {
            self.tokens = self.tokens - 1;
            true
        } else {
            false
        }
    }
}

/// A bucket for each key that has been asked about of late.
pub struct RateLimiter {
    buckets: StringHashMap<TokenBucket>,
    /// The keys of `buckets`, each once.
    keys: Vec<String>,
    capacity: u32,
    clock: Clock,
}

/// What a [`RateLimiter`] holds.
pub struct LimiterState {
    /// The bucket of each key.
    pub buckets: Map<Seq<char>, BucketState>,
    /// The tokens in a bucket that was just filled.
    pub capacity: nat,
}

impl View for RateLimiter {
    type V = LimiterState;

    closed spec fn view(&self) -> LimiterState {
        LimiterState {
            buckets: self.buckets@.map_values(|b: TokenBucket| b@),
            capacity: self.capacity as nat,
        }
    }
}

impl LimiterState {
    /// The bucket that decides on a request for `key` at `now`.
    pub open spec fn bucket(self, key: Seq<char>, now: Instant) -> BucketState {
        if self.buckets.contains_key(key) {
            self.buckets[key]
        } else {
            BucketState::full(self.capacity, now)
        }
    }

    /// Whether a request for `key` at `now` passes.
    pub open spec fn allows(self, key: Seq<char>, now: Instant) -> bool {
        self.bucket(key, now).grants(now, self.capacity)
    }

    /// The limiter after a request for `key` at `now`.
    pub open spec fn after(self, key: Seq<char>, now: Instant) -> LimiterState {
        LimiterState {
            buckets: self.buckets.insert(key, self.bucket(key, now).after(now, self.capacity)),
            capacity: self.capacity,
        }
    }

    /// Whether the bucket of `key` was filled in the five minutes before `now`.
    pub open spec fn recent(self, key: Seq<char>, now: Instant) -> bool {
        self.buckets.contains_key(key) && clock::elapsed_secs(now, self.buckets[key].last_refill)
            < 300
    }

    /// The limiter with only the buckets that were filled in the five minutes before `now`.
    pub open spec fn cleaned(self, now: Instant) -> LimiterState {
        LimiterState {
            buckets: Map::new(
                |key: Seq<char>| self.recent(key, now),
                |key: Seq<char>| self.buckets[key],
            ),
            capacity: self.capacity,
        }
    }

    /// Whether no bucket holds more than the capacity.
    pub open spec fn bounded(self) -> bool {
        forall|key: Seq<char>| #[trigger]
            self.buckets.contains_key(key) ==> self.buckets[key].tokens <= self.capacity
    }
}

impl RateLimiter {
    /// Whether the list of keys is that of the buckets, and no bucket holds more than the capacity.
    pub closed spec fn wf(&self) -> bool {
        &&& listed(self.keys@, self.buckets@.dom())
        &&& self@.bounded()
    }

    /// The clock by which this limiter goes.
    pub closed spec fn own_clock(&self) -> Clock {
        self.clock
    }

    /// A limiter that lets `capacity` requests pass per key and minute.
    pub fn new(capacity: u32) -> (r: RateLimiter)
        ensures
            r.wf(),
            r@.bounded(),
            r.own_clock().was_started(),
            r@.buckets == Map::<Seq<char>, BucketState>::empty(),
            r@.capacity == capacity,
    {
        let r = RateLimiter {
            buckets: StringHashMap::new(),
            keys: Vec::new(),
            capacity,
            clock: Clock::start(),
        };
        assert(r@.buckets =~= Map::<Seq<char>, BucketState>::empty());
        r
    }

    /// The number of keys that have a bucket.
    pub fn len(&self) -> (r: usize)
        requires
            self.wf(),
        ensures
            r == self@.buckets.dom().len(),
    {
        assert(self@.buckets.dom() =~= self.buckets@.dom());
        self.buckets.len()
    }

    /// The clock by which this limiter goes. Moments given to it are moments on this clock.
    pub fn clock(&self) -> (r: Clock)
        ensures
            r == self.own_clock(),
    {
        self.clock
    }

    /// Decides on a request for `key` at `now`.
    pub fn allow_at(&mut self, key: &str, now: Instant) -> (allowed: bool)
        requires
            old(self).wf(),
        ensures
            final(self).wf(),
            final(self)@.bounded(),
            allowed == old(self)@.allows(key@, now),
            final(self)@ == old(self)@.after(key@, now),
            final(self).own_clock() == old(self).own_clock(),
    {
        let capacity: u32 = self.capacity;
        let mut bucket = match self.buckets.get(key) {
            Some(b) => *b,
            None => TokenBucket::new(capacity, now),
        };
        let known = self.buckets.contains_key(key);
        let allowed = bucket.try_consume(now, capacity);
        self.buckets.insert(key.to_string(), bucket);
        if !known {
            self.keys.push(key.to_string());
        }
        proof {
            assert(self@.buckets =~= old(self)@.after(key@, now).buckets);
            if known {
                assert(self.buckets@.dom() =~= old(self).buckets@.dom());
            } else {
                lemma_listed_push(old(self).keys@, old(self).buckets@.dom(), self.keys@.last());
                assert(self.keys@ =~= old(self).keys@.push(self.keys@.last()));
                assert(self.buckets@.dom() =~= old(self).buckets@.dom().insert(key@));
            }
        }
        allowed
    }

    /// Decides on a request for `key` now.
    pub fn allow(&mut self, key: &str) -> (allowed: bool)
        requires
            old(self).wf(),
        ensures
            final(self).wf(),
            final(self)@.bounded(),
            exists|now: Instant| #[trigger]
                old(self).own_clock().reads(now) && allowed == old(self)@.allows(key@, now)
                    && final(self)@ == old(self)@.after(key@, now),
            final(self).own_clock() == old(self).own_clock(),
    {
        let now = self.clock.now();
        self.allow_at(key, now)
    }

    /// Forgets the buckets that were not filled in the five minutes before `now`.
    pub fn cleanup_at(&mut self, now: Instant)
        requires
            old(self).wf(),
        ensures
            final(self).wf(),
            final(self)@.bounded(),
            final(self)@ == old(self)@.cleaned(now),
            final(self).own_clock() == old(self).own_clock(),
    {
        let mut kept: Vec<String> = Vec::new();
        let mut i: usize = 0;
        let ghost all = old(self).buckets@;
        let ghost mut seen: Set<Seq<char>> = Set::empty();
        let ghost mut gone: Set<Seq<char>> = Set::empty();
        assert(self.buckets@ =~= all.remove_keys(gone));
        while i < self.keys.len()
            invariant
                i <= self.keys@.len(),
                self.keys@ == old(self).keys@,
                self.capacity == old(self).capacity,
                self.clock == old(self).clock,
                all == old(self).buckets@,
                listed(self.keys@, all.dom()),
                listed(kept@, seen),
                self.buckets@ == all.remove_keys(gone),
                forall|k: Seq<char>| #[trigger] seen.contains(k) ==> old(self)@.recent(k, now),
                forall|k: Seq<char>| #[trigger] gone.contains(k) ==> !old(self)@.recent(k, now),
                forall|j: int|
                    0 <= j < i ==> seen.contains(#[trigger] self.keys@[j]@) || gone.contains(
                        self.keys@[j]@,
                    ),
                forall|j: int|
                    i <= j < self.keys@.len() ==> !seen.contains(#[trigger] self.keys@[j]@)
                        && !gone.contains(self.keys@[j]@),
            decreases self.keys@.len() - i,
        {
            let ghost key = self.keys@[i as int]@;
            assert(all.dom().contains(key));
            let stale = match self.buckets.get(self.keys[i].as_str()) {
                Some(b) => now.secs_since(b.last_refill) >= BUCKET_IDLE_SECS,
                None => true,
            };
            assert(stale == !old(self)@.recent(key, now));
            if stale {
                self.buckets.remove(self.keys[i].as_str());
                proof {
                    gone = gone.insert(key);
                    assert(self.buckets@ =~= all.remove_keys(gone));
                }
            } else {
                let k = self.keys[i].clone();
                proof {
                    lemma_listed_push(kept@, seen, k);
                    seen = seen.insert(key);
                }
                kept.push(k);
            }
            i = i + 1;
        }
        self.keys = kept;
        proof {
            assert forall|k: Seq<char>| #[trigger] all.dom().contains(k) implies seen.contains(k)
                || gone.contains(k) by {
                let j = choose|j: int|
                    0 <= j < old(self).keys@.len() && #[trigger] old(self).keys@[j]@ == k;
            }
            assert(self.buckets@.dom() =~= seen);
            assert(self@.buckets =~= old(self)@.cleaned(now).buckets);
        }
    }

    /// Forgets the buckets that were not filled in the last five minutes.
    pub fn cleanup(&mut self)
        requires
            old(self).wf(),
        ensures
            final(self).wf(),
            final(self)@.bounded(),
            exists|now: Instant| #[trigger]
                old(self).own_clock().reads(now) && final(self)@ == old(self)@.cleaned(now),
            final(self).own_clock() == old(self).own_clock(),
    {
        let now = self.clock.now();
        self.cleanup_at(now);
    }
}

/// The bucket after requests at `times`, one after the other.
pub open spec fn bucket_after(b: BucketState, times: Seq<Instant>, capacity: nat) -> BucketState
    decreases times.len(),
{
    if times.len() == 0 {
        b
    } else {
        bucket_after(b, times.drop_last(), capacity).after(times.last(), capacity)
    }
}

/// Whether the request at `times[i]` passes, after those before it.
pub open spec fn passes(b: BucketState, times: Seq<Instant>, i: int, capacity: nat) -> bool {
    bucket_after(b, times.take(i), capacity).grants(times[i], capacity)
}

/// How many of the requests at `times` pass.
pub open spec fn passed(b: BucketState, times: Seq<Instant>, capacity: nat) -> nat
    decreases times.len(),
{
    if times.len() == 0 {
        0
    } else {
        passed(b, times.drop_last(), capacity) + if bucket_after(
            b,
            times.drop_last(),
            capacity,
        ).grants(times.last(), capacity) {
            1nat
        } else {
            0nat
        }
    }
}

/// Of the requests in the minute after a bucket was filled, the first ones pass, as many as it
/// held tokens, and no other does.
pub proof fn a_window_passes_exactly_its_tokens(
    b: BucketState,
    times: Seq<Instant>,
    capacity: nat,
)
    requires
        forall|i: int|
            0 <= i < times.len() ==> clock::elapsed_secs(#[trigger] times[i], b.last_refill) < 60,
    ensures
        forall|i: int|
            #![trigger times[i]]
            0 <= i < times.len() ==> (passes(b, times, i, capacity) <==> i < b.tokens),
        passed(b, times, capacity) == if times.len() < b.tokens {
            times.len()
        } else {
            b.tokens
        },
        bucket_after(b, times, capacity) == (BucketState {
            tokens: if times.len() < b.tokens {
                (b.tokens - times.len()) as nat
            } else {
                0
            },
            last_refill: b.last_refill,
        }),
    decreases times.len(),
{
    if times.len() > 0 {
        let init = times.drop_last();
        assert forall|i: int| 0 <= i < init.len() implies clock::elapsed_secs(
            #[trigger] init[i],
            b.last_refill,
        ) < 60 by {
            assert(init[i] == times[i]);
        }
        a_window_passes_exactly_its_tokens(b, init, capacity);
        assert forall|i: int| #![trigger times[i]] 0 <= i < times.len() implies (passes(
            b,
            times,
            i,
            capacity,
        ) <==> i < b.tokens) by {
            if i < init.len() {
                assert(times.take(i) =~= init.take(i));
                assert(init[i] == times[i]);
            } else {
                assert(times.take(i) =~= init);
            }
        }
    }
}

/// In no minute, wherever it starts, do more requests pass than twice the capacity: what a bucket
/// still held, and what one refill put into it.
pub proof fn a_minute_passes_at_most_two_fillings(
    b: BucketState,
    times: Seq<Instant>,
    capacity: nat,
)
    requires
        b.tokens <= capacity,
        forall|i: int, j: int|
            0 <= i <= j < times.len() ==> (#[trigger] times[i]).nanos_since_start() <= (
            #[trigger] times[j]).nanos_since_start(),
        forall|i: int, j: int|
            0 <= i <= j < times.len() ==> clock::elapsed_secs(
                #[trigger] times[j],
                #[trigger] times[i],
            ) < 60,
    ensures
        passed(b, times, capacity) <= 2 * capacity,
{
    lemma_minute(b, times, capacity);
}

/// Either the bucket was not filled yet, or it was filled at one of the requests.
proof fn lemma_minute(b: BucketState, times: Seq<Instant>, capacity: nat)
    requires
        b.tokens <= capacity,
        forall|i: int, j: int|
            0 <= i <= j < times.len() ==> (#[trigger] times[i]).nanos_since_start() <= (
            #[trigger] times[j]).nanos_since_start(),
        forall|i: int, j: int|
            0 <= i <= j < times.len() ==> clock::elapsed_secs(
                #[trigger] times[j],
                #[trigger] times[i],
            ) < 60,
    ensures
        ({
            let now = bucket_after(b, times, capacity);
            ||| now.last_refill == b.last_refill && passed(b, times, capacity) + now.tokens
                == b.tokens
            ||| passed(b, times, capacity) + now.tokens <= 2 * capacity && exists|i: int|
                0 <= i < times.len() && now.last_refill == #[trigger] times[i]
        }),
    decreases times.len(),
{
    if times.len() > 0 {
        let init = times.drop_last();
        assert forall|i: int, j: int| 0 <= i <= j < init.len() implies (
        #[trigger] init[i]).nanos_since_start() <= (#[trigger] init[j]).nanos_since_start()
            && clock::elapsed_secs(init[j], init[i]) < 60 by {
            assert(init[i] == times[i] && init[j] == times[j]);
        }
        lemma_minute(b, init, capacity);
        let before = bucket_after(b, init, capacity);
        let last = times.last();
        assert(last == times[times.len() - 1]);
        if clock::elapsed_secs(last, before.last_refill) < 60 {
            if exists|i: int| 0 <= i < init.len() && before.last_refill == #[trigger] init[i] {
                let i = choose|i: int| 0 <= i < init.len() && before.last_refill == #[trigger] init[i];
                assert(times[i] == before.last_refill);
            }
        } else {
            if exists|i: int| 0 <= i < init.len() && before.last_refill == #[trigger] init[i] {
                let i = choose|i: int| 0 <= i < init.len() && before.last_refill == #[trigger] init[i];
                assert(clock::elapsed_secs(times[times.len() - 1], times[i]) < 60);
            }
        }
    }
}

/// Forgetting idle buckets changes no decision: at any later moment every key is decided on, and
/// its bucket left, as if nothing had been forgotten.
pub proof fn cleaning_changes_no_decision(
    limiter: LimiterState,
    cleaned_at: Instant,
    key: Seq<char>,
    now: Instant,
)
    requires
        cleaned_at.nanos_since_start() <= now.nanos_since_start(),
    ensures
        limiter.cleaned(cleaned_at).allows(key, now) == limiter.allows(key, now),
        limiter.cleaned(cleaned_at).after(key, now).buckets[key] == limiter.after(
            key,
            now,
        ).buckets[key],
{
    if limiter.buckets.contains_key(key) && !limiter.recent(key, cleaned_at) {
        let b = limiter.buckets[key];
        assert(clock::elapsed_secs(now, b.last_refill) >= 60);
        assert(clock::elapsed_secs(now, now) == 0);
    }
}

/// A request for one key leaves every decision on another as it was.
pub proof fn keys_are_limited_apart(
    limiter: LimiterState,
    key: Seq<char>,
    now: Instant,
    other: Seq<char>,
    later: Instant,
)
    requires
        key != other,
    ensures
        limiter.after(key, now).allows(other, later) == limiter.allows(other, later),
        limiter.after(key, now).bucket(other, later) == limiter.bucket(other, later),
{
}

/// Whether `keys` names every member of `set` once, and nothing else.
spec fn listed(keys: Seq<String>, set: Set<Seq<char>>) -> bool {
    &&& forall|i: int, j: int| 0 <= i < j < keys.len() ==> #[trigger] keys[i]@ != #[trigger] keys[j]@
    &&& forall|i: int| 0 <= i < keys.len() ==> set.contains(#[trigger] keys[i]@)
    &&& forall|k: Seq<char>| #[trigger]
        set.contains(k) ==> exists|i: int| 0 <= i < keys.len() && #[trigger] keys[i]@ == k
}

/// A new key extends the list.
proof fn lemma_listed_push(keys: Seq<String>, set: Set<Seq<char>>, key: String)
    requires
        listed(keys, set),
        !set.contains(key@),
    ensures
        listed(keys.push(key), set.insert(key@)),
{
    let more = keys.push(key);
    assert forall|k: Seq<char>| #[trigger] set.insert(key@).contains(k) implies exists|i: int|
        0 <= i < more.len() && #[trigger] more[i]@ == k by {
        if k == key@ {
            assert(more[keys.len() as int]@ == k);
        } else {
            let i = choose|i: int| 0 <= i < keys.len() && #[trigger] keys[i]@ == k;
            assert(more[i]@ == k);
        }
    }
}

/// The nanoseconds that have passed since a bucket was filled.
pub open spec fn age(b: BucketState, now: Instant) -> int {
    now.nanos_since_start() - b.last_refill.nanos_since_start()
}

/// For sixty seconds after it was filled, a bucket lets as many requests pass as it holds tokens,
/// and each takes one; from then on a request finds it filled again.
pub proof fn a_request_takes_a_token(
    b: &mut TokenBucket,
    now: Instant,
    capacity: u32,
    granted: bool,
)
    requires
        call_ensures(TokenBucket::try_consume, (b, now, capacity), granted),
    ensures
        age(old(b)@, now) < 60_000_000_000 ==> {
            &&& granted <==> old(b)@.tokens > 0
            &&& granted ==> final(b)@.tokens == old(b)@.tokens - 1
            &&& !granted ==> final(b)@.tokens == 0
            &&& final(b)@.last_refill == old(b)@.last_refill
        },
        age(old(b)@, now) >= 60_000_000_000 ==> {
            &&& granted <==> capacity > 0
            &&& granted ==> final(b)@.tokens == capacity - 1
            &&& !granted ==> final(b)@.tokens == 0
            &&& final(b)@.last_refill == now
        },
{
}

/// A new bucket holds its capacity from the moment at which it was made.
pub proof fn a_new_bucket_is_full(capacity: u32, now: Instant, r: TokenBucket)
    requires
        call_ensures(TokenBucket::new, (capacity, now), r),
    ensures
        r@.tokens == capacity,
        r@.last_refill == now,
{
}

/// A request for a key is let pass by the key's bucket: one that is made for it if it has none, one
/// that holds a token, or one that is sixty seconds old. It takes a token from that bucket, and
/// leaves all others as they are.
pub proof fn a_request_goes_to_the_bucket_of_its_key(
    limiter: &mut RateLimiter,
    key: &str,
    now: Instant,
    allowed: bool,
)
    requires
        old(limiter).wf(),
        call_ensures(RateLimiter::allow_at, (limiter, key, now), allowed),
    ensures
        ({
            let before = old(limiter)@.buckets;
            let after = final(limiter)@.buckets;
            let fresh = !before.contains_key(key@) || age(before[key@], now) >= 60_000_000_000;
            let capacity = old(limiter)@.capacity;
            &&& fresh ==> (allowed <==> capacity > 0)
            &&& !fresh ==> (allowed <==> before[key@].tokens > 0)
            &&& after.contains_key(key@)
            &&& fresh ==> after[key@].last_refill == now && after[key@].tokens == if allowed {
                capacity - 1
            } else {
                0
            }
            &&& !fresh ==> after[key@].last_refill == before[key@].last_refill
                && after[key@].tokens == if allowed {
                before[key@].tokens - 1
            } else {
                0
            }
            &&& forall|k: Seq<char>|
                k != key@ ==> (#[trigger] after.contains_key(k) <==> before.contains_key(k)) && (
                before.contains_key(k) ==> after[k] == before[k])
            &&& final(limiter)@.capacity == old(limiter)@.capacity
        }),
{
}

/// A cleanup keeps the buckets that were filled less than five minutes ago as they are, and forgets
/// all others.
pub proof fn a_cleanup_forgets_idle_buckets(limiter: &mut RateLimiter, now: Instant)
    requires
        old(limiter).wf(),
        call_ensures(RateLimiter::cleanup_at, (limiter, now), ()),
    ensures
        forall|k: Seq<char>| #[trigger]
            final(limiter)@.buckets.contains_key(k) <==> old(limiter)@.buckets.contains_key(k)
                && age(old(limiter)@.buckets[k], now) < 300_000_000_000,
        forall|k: Seq<char>| #[trigger]
            final(limiter)@.buckets.contains_key(k) ==> final(limiter)@.buckets[k] == old(
                limiter,
            )@.buckets[k],
        final(limiter)@.capacity == old(limiter)@.capacity,
{
}

/// A new limiter knows no key.
pub proof fn a_new_limiter_knows_no_key(capacity: u32, r: RateLimiter, key: Seq<char>)
    requires
        call_ensures(RateLimiter::new, (capacity,), r),
    ensures
        r@.capacity == capacity,
        !r@.buckets.contains_key(key),
{
}

/// The times after which buckets are filled again and forgotten.
pub proof fn the_times_of_a_bucket()
    ensures
        BUCKET_WINDOW_SECS == 60,
        BUCKET_IDLE_SECS == 300,
{
}

} // verus!
