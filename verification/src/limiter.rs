//! The rate limiter: one token bucket for each source address, refilled
//! lazily, in a table that is split into shards by a hash of the address.
//!
//! No number here has a fraction, and no rounding enters a decision. Time is
//! a count of nanoseconds on a monotonic clock. The rate and the capacity
//! are counts of billionths of a token, so that a rate of half a token in a
//! second can be given as well as one of five tokens. The level of a bucket
//! is counted in units of which a token has `TOKEN`, a billion times a
//! billion: a bucket then gains exactly as many units in a nanosecond as its
//! rate has billionths in a second.

use vstd::prelude::*;
use vstd::bytes::{spec_u128_to_le_bytes, u128_to_le_bytes};
use vstd::set_lib::lemma_set_disjoint_lens;
use vstd::std_specs::hash::{spec_hash_map_iter, DefaultHasherAdditionalSpecFns};
use vstd::std_specs::iter::IteratorSpec;
use std::collections::hash_map::DefaultHasher;
use std::collections::HashMap;
use std::hash::Hasher;

verus! {

/// The nanoseconds of a second, and the billionths of a token.
pub const NANOS: u64 = 1_000_000_000;

/// The level of one token: a billion times a billion units.
pub const TOKEN: u128 = 1_000_000_000_000_000_000;

/// A number of tokens, or of tokens in a second, in billionths of a token.
#[derive(Clone, Copy, Debug, PartialEq, Eq, Structural)]
pub struct Tokens {
    /// The number, in billionths of a token.
    pub billionths: u64,
}

impl Tokens {
    /// `count` whole tokens.
    pub fn whole(count: u32) -> (out: Tokens)
        ensures
            out.billionths == count * NANOS,
    {
        Tokens { billionths: (count as u64) * NANOS }
    }

    /// `count` billionths of a token.
    pub fn from_billionths(count: u64) -> (out: Tokens)
        ensures
            out.billionths == count,
    {
        Tokens { billionths: count }
    }
}

/// The number of shards of a limiter that is built without one.
pub const DEFAULT_SHARDS: usize = 16;

/// The idle time after which a bucket is dropped, in nanoseconds: ten minutes.
pub const IDLE_EVICT: u64 = 600_000_000_000;

/// The time between two rounds of eviction, in nanoseconds: one minute.
pub const EVICT_PERIOD: u64 = 60_000_000_000;

/// The level of a full bucket of the capacity `capacity`.
pub open spec fn full_level(capacity: Tokens) -> int {
    capacity.billionths * NANOS
}

/// The state of one source address.
#[derive(Clone, Copy, Debug, PartialEq, Eq, Structural)]
pub struct Bucket {
    /// The tokens at hand, in units of which a token has `TOKEN`.
    pub tokens: u128,
    /// The time of the last check, in nanoseconds.
    pub last_update: u64,
}

/// The bucket that an address starts with: full, at the time of its first
/// check.
pub open spec fn fresh_bucket(now: u64, capacity: Tokens) -> Bucket {
    Bucket { tokens: full_level(capacity) as u128, last_update: now }
}

/// The nanoseconds from the last check of `bucket` to `now`; none where the
/// clock went back.
pub open spec fn elapsed_since(bucket: Bucket, now: u64) -> int {
    if now > bucket.last_update {
        now - bucket.last_update
    } else {
        0
    }
}

/// `bucket` brought up to `now`: it gains `rate` for each second that went
/// by, up to its capacity, and its time moves on to `now`.
pub open spec fn refilled(bucket: Bucket, now: u64, rate: Tokens, capacity: Tokens) -> Bucket {
    let gained = bucket.tokens + elapsed_since(bucket, now) * rate.billionths;
    Bucket {
        tokens: if gained >= full_level(capacity) {
            full_level(capacity) as u128
        } else {
            gained as u128
        },
        last_update: if now > bucket.last_update {
            now
        } else {
            bucket.last_update
        },
    }
}

/// What a check at `now` makes of the state of an address: the bucket, new
/// where there was none, is brought up to `now`, and a whole token is taken
/// from it if it holds one. The second part says whether one was taken.
pub open spec fn checked(state: Option<Bucket>, now: u64, rate: Tokens, capacity: Tokens) -> (
    Bucket,
    bool,
) {
    let start = match state {
        Some(bucket) => bucket,
        None => fresh_bucket(now, capacity),
    };
    let bucket = refilled(start, now, rate, capacity);
    if bucket.tokens >= TOKEN {
        (Bucket { tokens: (bucket.tokens - TOKEN) as u128, last_update: bucket.last_update }, true)
    } else {
        (bucket, false)
    }
}

/// The state of an address after checks at `times`, in order.
pub open spec fn after_checks(
    start: Option<Bucket>,
    times: Seq<u64>,
    rate: Tokens,
    capacity: Tokens,
) -> Option<Bucket>
    decreases times.len(),
{
    if times.len() == 0 {
        start
    } else {
        Some(
            checked(
                after_checks(start, times.drop_last(), rate, capacity),
                times.last(),
                rate,
                capacity,
            ).0,
        )
    }
}

/// How many of the checks at `times` take a token.
pub open spec fn admitted_count(
    start: Option<Bucket>,
    times: Seq<u64>,
    rate: Tokens,
    capacity: Tokens,
) -> nat
    decreases times.len(),
{
    if times.len() == 0 {
        0
    } else {
        let before = after_checks(start, times.drop_last(), rate, capacity);
        admitted_count(start, times.drop_last(), rate, capacity) + if checked(
            before,
            times.last(),
            rate,
            capacity,
        ).1 {
            1nat
        } else {
            0nat
        }
    }
}

/// The level of a bucket never leaves the range from nothing to its
/// capacity: a check of a state within capacity gives a bucket within
/// capacity, and the time of a bucket does not go back.
pub proof fn lemma_checked_within(state: Option<Bucket>, now: u64, rate: Tokens, capacity: Tokens)
    ensures
        0 <= checked(state, now, rate, capacity).0.tokens <= full_level(capacity),
        checked(state, now, rate, capacity).0.last_update >= now,
        state matches Some(bucket) ==> checked(state, now, rate, capacity).0.last_update
            >= bucket.last_update,
{
    assert(full_level(capacity) <= u128::MAX) by (nonlinear_arith)
        requires
            full_level(capacity) == capacity.billionths * NANOS,
            capacity.billionths <= u64::MAX,
            NANOS == 1_000_000_000,
    ;
}

/// `count` checks at the one time `now`.
pub open spec fn at_once(count: nat, now: u64) -> Seq<u64> {
    Seq::new(count, |i: int| now)
}

/// The whole tokens in `amount`.
pub open spec fn whole_tokens(amount: Tokens) -> nat {
    (amount.billionths / NANOS) as nat
}

/// An address that was not seen before may take a burst of its capacity: of
/// its first checks, all at one time, as many are let through as the
/// capacity has whole tokens, and no more.
pub proof fn lemma_burst(count: nat, now: u64, rate: Tokens, capacity: Tokens)
    ensures
        admitted_count(None, at_once(count, now), rate, capacity) == if count <= whole_tokens(
            capacity,
        ) {
            count
        } else {
            whole_tokens(capacity)
        },
        count > 0 ==> after_checks(None, at_once(count, now), rate, capacity) == Some(
            Bucket {
                tokens: (full_level(capacity) - admitted_count(
                    None,
                    at_once(count, now),
                    rate,
                    capacity,
                ) * TOKEN) as u128,
                last_update: now,
            },
        ),
    decreases count,
{
    if count > 0 {
        let earlier = (count - 1) as nat;
        lemma_burst(earlier, now, rate, capacity);
        assert(at_once(count, now).drop_last() =~= at_once(earlier, now));
        assert(at_once(count, now).last() == now);
        let before = after_checks(None, at_once(earlier, now), rate, capacity);
        lemma_checked_within(before, now, rate, capacity);
        let taken = admitted_count(None, at_once(earlier, now), rate, capacity);
        let whole = whole_tokens(capacity);
        assert(whole * NANOS <= capacity.billionths < (whole + 1) * NANOS);
        assert(full_level(capacity) == capacity.billionths * NANOS);
        assert(TOKEN == NANOS * NANOS);
        if earlier == 0 {
            assert(before is None);
        } else {
            assert(elapsed_since(before.unwrap(), now) == 0);
            assert(elapsed_since(before.unwrap(), now) * rate.billionths == 0);
        }
        // A token is at hand exactly while fewer whole tokens were taken
        // than the capacity has.
        assert(full_level(capacity) - taken * TOKEN >= TOKEN <==> taken < whole)
            by (nonlinear_arith)
            requires
                whole * NANOS <= capacity.billionths < (whole + 1) * NANOS,
                full_level(capacity) == capacity.billionths * NANOS,
                TOKEN == NANOS * NANOS,
                NANOS == 1_000_000_000,
                taken <= whole,
        ;
        assert(full_level(capacity) - taken * TOKEN >= 0) by (nonlinear_arith)
            requires
                whole * NANOS <= capacity.billionths,
                full_level(capacity) == capacity.billionths * NANOS,
                TOKEN == NANOS * NANOS,
                NANOS == 1_000_000_000,
                taken <= whole,
        ;
    }
}

/// Checks at times that do not go back take no more tokens than a full
/// bucket holds and the time from the first check to the last refills.
pub proof fn lemma_token_conservation(
    start: Option<Bucket>,
    times: Seq<u64>,
    rate: Tokens,
    capacity: Tokens,
)
    requires
        times.len() > 0,
        forall|i: int, j: int| 0 <= i <= j < times.len() ==> times[i] <= times[j],
    ensures
        admitted_count(start, times, rate, capacity) * TOKEN <= full_level(capacity) + (
        times.last() - times[0]) * rate.billionths,
{
    lemma_conservation_step(start, times, rate, capacity);
}

/// The tokens taken so far and the tokens at hand together are no more than
/// a full bucket and what the time since the first check refills.
proof fn lemma_conservation_step(
    start: Option<Bucket>,
    times: Seq<u64>,
    rate: Tokens,
    capacity: Tokens,
)
    requires
        times.len() > 0,
        forall|i: int, j: int| 0 <= i <= j < times.len() ==> times[i] <= times[j],
    ensures
        after_checks(start, times, rate, capacity) matches Some(bucket) && bucket.last_update
            >= times.last() && bucket.tokens + admitted_count(start, times, rate, capacity)
            * TOKEN <= full_level(capacity) + (times.last() - times[0]) * rate.billionths,
    decreases times.len(),
{
    let earlier = times.drop_last();
    let now = times.last();
    let before = after_checks(start, earlier, rate, capacity);
    lemma_checked_within(before, now, rate, capacity);
    if earlier.len() == 0 {
        assert(now == times[0]);
        assert((now - times[0]) * rate.billionths == 0) by (nonlinear_arith)
            requires
                now == times[0],
        ;
        assert(admitted_count(start, earlier, rate, capacity) == 0);
    } else {
        lemma_conservation_step(start, earlier, rate, capacity);
        let prev = before.unwrap();
        let n = admitted_count(start, earlier, rate, capacity);
        let then = earlier.last();
        assert(then == times[times.len() - 2]);
        assert(earlier[0] == times[0]);
        assert(then <= now);
        let per_second = rate.billionths;
        let gain = elapsed_since(prev, now) * per_second;
        assert(gain <= (now - then) * per_second) by (nonlinear_arith)
            requires
                0 <= elapsed_since(prev, now) <= now - then,
                gain == elapsed_since(prev, now) * per_second,
                per_second >= 0,
        ;
        assert((then - times[0]) * per_second + (now - then) * per_second == (now - times[0])
            * per_second) by (nonlinear_arith);
        let mid = refilled(prev, now, rate, capacity);
        assert(mid.tokens <= prev.tokens + gain);
    }
}

/// Runs one check on the state of an address.
pub fn check_bucket(state: Option<Bucket>, now: u64, rate: Tokens, capacity: Tokens) -> (out: (
    Bucket,
    bool,
))
    ensures
        out == checked(state, now, rate, capacity),
        out.0.tokens <= full_level(capacity),
{
    let full: u128 = (capacity.billionths as u128) * (NANOS as u128);
    let start = match state {
        Some(bucket) => bucket,
        None => Bucket { tokens: full, last_update: now },
    };
    let elapsed: u64 = if now > start.last_update {
        now - start.last_update
    } else {
        0
    };
    assert(elapsed * rate.billionths <= u64::MAX * u64::MAX) by (nonlinear_arith)
        requires
            0 <= elapsed <= u64::MAX,
            0 <= rate.billionths <= u64::MAX,
    ;
    let gain: u128 = (elapsed as u128) * (rate.billionths as u128);
    let level: u128 = if start.tokens >= full || gain >= full - start.tokens {
        full
    } else {
        start.tokens + gain
    };
    let last_update: u64 = if now > start.last_update {
        now
    } else {
        start.last_update
    };
    if level >= TOKEN {
        (Bucket { tokens: level - TOKEN, last_update }, true)
    } else {
        (Bucket { tokens: level, last_update }, false)
    }
}

/// Whether a bucket has been idle for more than `idle` nanoseconds at `now`.
pub open spec fn is_idle(bucket: Bucket, now: u64, idle: u64) -> bool {
    now - bucket.last_update > idle
}

/// The buckets of `buckets` that are not idle at `now`.
pub open spec fn active_at(buckets: Map<u128, Bucket>, now: u64, idle: u64) -> Map<u128, Bucket> {
    buckets.restrict(Set::new(|ip: u128| !is_idle(buckets[ip], now, idle)))
}

/// Eviction leaves the bucket of an address that is not idle as it is, so the
/// next check of that address is decided as if nothing had been evicted.
pub proof fn lemma_eviction_keeps_active(
    buckets: Map<u128, Bucket>,
    now: u64,
    idle: u64,
    ip: u128,
    at: u64,
    rate: Tokens,
    capacity: Tokens,
)
    requires
        buckets.contains_key(ip),
        !is_idle(buckets[ip], now, idle),
    ensures
        active_at(buckets, now, idle).get(ip) == buckets.get(ip),
        checked(active_at(buckets, now, idle).get(ip), at, rate, capacity) == checked(
            buckets.get(ip),
            at,
            rate,
            capacity,
        ),
{
}

/// One part of the table of buckets, with the rate and the capacity of the
/// limiter it belongs to. A shard can be held under a lock of its own.
pub struct Shard {
    buckets: HashMap<u128, Bucket>,
    rate: Tokens,
    capacity: Tokens,
}

impl View for Shard {
    type V = Map<u128, Bucket>;

    closed spec fn view(&self) -> Map<u128, Bucket> {
        self.buckets@
    }
}

impl Shard {
    /// What a bucket gains in a second.
    pub closed spec fn rate(&self) -> Tokens {
        self.rate
    }

    /// What a bucket holds at most.
    pub closed spec fn capacity(&self) -> Tokens {
        self.capacity
    }

    /// The level of every bucket is within the capacity, and the buckets are
    /// finitely many.
    pub open spec fn wf(&self) -> bool {
        &&& self@.dom().finite()
        &&& forall|ip: u128| #[trigger]
            self@.contains_key(ip) ==> self@[ip].tokens <= full_level(self.capacity())
    }

    /// A shard without buckets, for a limiter that gives each address `rate`
    /// in a second and lets it hold `capacity`.
    pub fn new(rate: Tokens, capacity: Tokens) -> (out: Shard)
        ensures
            out.wf(),
            out@ == Map::<u128, Bucket>::empty(),
            out.rate() == rate,
            out.capacity() == capacity,
    {
        broadcast use vstd::std_specs::hash::group_hash_axioms;

        Shard { buckets: HashMap::new(), rate, capacity }
    }

    /// Checks the address `ip` at the time `now`: `true` if a token was at
    /// hand, which is then taken. An address that the shard has not seen
    /// starts with a full bucket.
    pub fn check(&mut self, ip: u128, now: u64) -> (admitted: bool)
        requires
            old(self).wf(),
        ensures
            final(self).wf(),
            final(self).rate() == old(self).rate(),
            final(self).capacity() == old(self).capacity(),
            final(self)@ == old(self)@.insert(
                ip,
                checked(old(self)@.get(ip), now, old(self).rate(), old(self).capacity()).0,
            ),
            admitted == checked(old(self)@.get(ip), now, old(self).rate(), old(self).capacity()).1,
    {
        broadcast use vstd::std_specs::hash::group_hash_axioms;

        let state: Option<Bucket> = match self.buckets.get(&ip) {
            Some(bucket) => Some(*bucket),
            None => None,
        };
        let (bucket, admitted) = check_bucket(state, now, self.rate, self.capacity);
        self.buckets.insert(ip, bucket);
        admitted
    }

    /// The level of the bucket of `ip`, in units of which a token has
    /// `TOKEN`, if the shard has one.
    pub fn tokens(&self, ip: u128) -> (out: Option<u128>)
        requires
            self.wf(),
        ensures
            out == match self@.get(ip) {
                Some(bucket) => Some(bucket.tokens),
                None => None,
            },
            out matches Some(level) ==> level <= full_level(self.capacity()),
    {
        broadcast use vstd::std_specs::hash::group_hash_axioms;

        match self.buckets.get(&ip) {
            Some(bucket) => Some(bucket.tokens),
            None => None,
        }
    }

    /// The number of buckets.
    pub fn len(&self) -> (n: usize)
        ensures
            n == self@.len(),
    {
        broadcast use vstd::std_specs::hash::group_hash_axioms;

        self.buckets.len()
    }

    /// Drops the buckets that have been idle for more than `idle` nanoseconds
    /// at `now`, and says how many they were. The other buckets stay as they
    /// are.
    pub fn evict_idle(&mut self, now: u64, idle: u64) -> (removed: usize)
        requires
            old(self).wf(),
        ensures
            final(self).wf(),
            final(self).rate() == old(self).rate(),
            final(self).capacity() == old(self).capacity(),
            final(self)@ == active_at(old(self)@, now, idle),
            removed == old(self)@.len() - final(self)@.len(),
    {
        broadcast use vstd::std_specs::hash::group_hash_axioms;

        let mut stale: Vec<u128> = Vec::new();
        let ghost all = spec_hash_map_iter(&self.buckets).remaining();
        let entries = self.buckets.iter();
        for entry in iter: entries
            invariant
                iter.seq() == all,
                all == spec_hash_map_iter(&self.buckets).remaining(),
                forall|k: int|
                    0 <= k < stale@.len() ==> self.buckets@.contains_key(#[trigger] stale@[k])
                        && is_idle(self.buckets@[stale@[k]], now, idle),
                forall|i: int|
                    0 <= i < iter.index() && is_idle(*all[i].1, now, idle) ==> stale@.contains(
                        *(#[trigger] all[i]).0,
                    ),
        {
            let (ip, bucket) = entry;
            if now > bucket.last_update && now - bucket.last_update > idle {
                let ghost before = stale@;
                stale.push(*ip);
                proof {
                    assert(stale@[before.len() as int] == *ip);
                    assert forall|i: int|
                        0 <= i < iter.index() + 1 && is_idle(
                            *all[i].1,
                            now,
                            idle,
                        ) implies stale@.contains(*(#[trigger] all[i]).0) by {
                        if i < iter.index() {
                            let k = before.index_of(*all[i].0);
                            assert(stale@[k] == *all[i].0);
                        }
                    }
                }
            }
        }
        let ghost start = self.buckets@;
        assert forall|ip: u128|
            start.contains_key(ip) && is_idle(start[ip], now, idle) implies stale@.contains(
            ip,
        ) by {
            let pair = (&ip, &start[ip]);
            assert(all.contains(pair));
            let i = all.index_of(pair);
            assert(*all[i].0 == ip);
        }
        let total = self.buckets.len();
        let mut removed: usize = 0;
        let mut j: usize = 0;
        while j < stale.len()
            invariant
                j <= stale.len(),
                self.rate == old(self).rate,
                self.capacity == old(self).capacity,
                start == old(self)@,
                start.dom().finite(),
                start.len() == total,
                self.buckets@.dom().finite(),
                forall|ip: u128| #[trigger]
                    self.buckets@.contains_key(ip) ==> start.contains_key(ip) && !stale@.take(
                        j as int,
                    ).contains(ip),
                forall|ip: u128| #[trigger]
                    start.contains_key(ip) && !stale@.take(j as int).contains(ip)
                        ==> self.buckets@.contains_key(ip),
                forall|ip: u128| #[trigger]
                    self.buckets@.contains_key(ip) ==> self.buckets@[ip] == start[ip],
                removed + self.buckets@.len() == start.len(),
            decreases stale.len() - j,
        {
            let ip = stale[j];
            let ghost before = self.buckets@;
            let gone = self.buckets.remove(&ip);
            proof {
                assert(self.buckets@ == before.remove(ip));
                assert(stale@.take(j + 1) =~= stale@.take(j as int).push(ip));
                assert forall|other: u128|
                    self.buckets@.contains_key(other) <==> #[trigger] start.contains_key(other)
                        && !stale@.take(j + 1).contains(other) by {
                    assert(before.contains_key(other) <==> start.contains_key(other)
                        && !stale@.take(j as int).contains(other));
                    if stale@.take(j + 1).contains(other) && other != ip {
                        let k = stale@.take(j + 1).index_of(other);
                        assert(stale@.take(j as int)[k] == other);
                    }
                    if stale@.take(j as int).contains(other) {
                        let k = stale@.take(j as int).index_of(other);
                        assert(stale@.take(j + 1)[k] == other);
                    }
                    if other == ip {
                        assert(stale@.take(j + 1)[j as int] == ip);
                        assert(stale@.take(j + 1).contains(other));
                    } else {
                        assert(self.buckets@.contains_key(other) <==> before.contains_key(other));
                        assert(stale@.take(j + 1).contains(other) <==> stale@.take(
                            j as int,
                        ).contains(other));
                    }
                }
            }
            if gone.is_some() {
                removed += 1;
            }
            j += 1;
        }
        proof {
            assert(stale@.take(stale@.len() as int) =~= stale@);
            assert forall|ip: u128|
                self.buckets@.contains_key(ip) <==> active_at(start, now, idle).contains_key(
                    ip,
                ) by {
                if stale@.contains(ip) {
                    let k = stale@.index_of(ip);
                    assert(is_idle(start[stale@[k]], now, idle));
                }
            }
            assert(self.buckets@ =~= active_at(start, now, idle));
        }
        removed
    }
}

/// The shard that holds the bucket of `ip` among `shards` shards: the hash
/// that the default hasher of std gives of the sixteen bytes of `ip`, least
/// byte first, modulo the number of shards.
pub open spec fn shard_of(ip: u128, shards: int) -> int {
    (DefaultHasher::spec_finish(seq![spec_u128_to_le_bytes(ip)]) as int) % shards
}

/// Computes the shard of `ip`.
pub fn shard_index(ip: u128, shard_count: usize) -> (index: usize)
    requires
        shard_count > 0,
    ensures
        index == shard_of(ip, shard_count as int),
        index < shard_count,
{
    let mut hasher = DefaultHasher::new();
    let bytes = u128_to_le_bytes(ip);
    hasher.write(bytes.as_slice());
    assert(hasher@ =~= seq![spec_u128_to_le_bytes(ip)]);
    (hasher.finish() % (shard_count as u64)) as usize
}

/// The number of buckets in the first `upto` of `shards`.
spec fn buckets_in(shards: Seq<Shard>, upto: int) -> nat
    decreases upto,
{
    if upto <= 0 {
        0
    } else {
        buckets_in(shards, upto - 1) + shards[upto - 1]@.len()
    }
}

/// The rate limiter: the buckets of all source addresses, in shards.
pub struct RateLimiter {
    shards: Vec<Shard>,
    rate: Tokens,
    capacity: Tokens,
}

impl View for RateLimiter {
    type V = Map<u128, Bucket>;

    closed spec fn view(&self) -> Map<u128, Bucket> {
        Map::new(
            |ip: u128| self.shards@[shard_of(ip, self.shards@.len() as int)]@.contains_key(ip),
            |ip: u128| self.shards@[shard_of(ip, self.shards@.len() as int)]@[ip],
        )
    }
}

impl RateLimiter {
    /// What a bucket gains in a second.
    pub closed spec fn rate(&self) -> Tokens {
        self.rate
    }

    /// What a bucket holds at most.
    pub closed spec fn capacity(&self) -> Tokens {
        self.capacity
    }

    /// The number of shards.
    pub closed spec fn shard_count(&self) -> nat {
        self.shards@.len()
    }

    /// There is a shard, every shard is well formed and has the rate and the
    /// capacity of the limiter, and every bucket is in the shard of its
    /// address.
    pub closed spec fn wf(&self) -> bool {
        &&& self.shards@.len() > 0
        &&& forall|i: int|
            0 <= i < self.shards@.len() ==> {
                &&& (#[trigger] self.shards@[i]).wf()
                &&& self.shards@[i].rate() == self.rate
                &&& self.shards@[i].capacity() == self.capacity
            }
        &&& forall|i: int, ip: u128|
            0 <= i < self.shards@.len() && #[trigger] self.shards@[i]@.contains_key(ip)
                ==> shard_of(ip, self.shards@.len() as int) == i
    }

    /// The level of every bucket is within the capacity.
    pub open spec fn within_capacity(&self) -> bool {
        forall|ip: u128| #[trigger]
            self@.contains_key(ip) ==> self@[ip].tokens <= full_level(self.capacity())
    }

    /// A well-formed limiter has a shard, finitely many buckets, and every
    /// level within the capacity.
    pub proof fn lemma_wf(&self)
        requires
            self.wf(),
        ensures
            self.within_capacity(),
            self.shard_count() > 0,
            self@.dom().finite(),
    {
        assert forall|ip: u128| #[trigger] self@.contains_key(ip) implies self@[ip].tokens
            <= full_level(self.capacity()) by {
            let i = shard_of(ip, self.shards@.len() as int);
            assert(self.shards@[i].wf());
        }
        self.lemma_total();
    }

    /// A limiter stays well formed when one shard changes in a way that
    /// leaves the shard well formed, with its rate and capacity, and gives it
    /// no bucket of an address that belongs to another shard.
    proof fn lemma_shard_changed(&self, before: RateLimiter, index: int)
        requires
            before.wf(),
            0 <= index < before.shards@.len(),
            self.shards@.len() == before.shards@.len(),
            self.rate == before.rate,
            self.capacity == before.capacity,
            forall|k: int|
                0 <= k < self.shards@.len() && k != index ==> #[trigger] self.shards@[k]
                    == before.shards@[k],
            self.shards@[index].wf(),
            self.shards@[index].rate() == self.rate,
            self.shards@[index].capacity() == self.capacity,
            forall|ip: u128| #[trigger]
                self.shards@[index]@.contains_key(ip) ==> before.shards@[index]@.contains_key(ip)
                    || shard_of(ip, self.shards@.len() as int) == index,
        ensures
            self.wf(),
    {
        assert forall|k: int| 0 <= k < self.shards@.len() implies {
            &&& (#[trigger] self.shards@[k]).wf()
            &&& self.shards@[k].rate() == self.rate
            &&& self.shards@[k].capacity() == self.capacity
        } by {
            if k != index {
                assert(self.shards@[k] == before.shards@[k]);
                assert(before.shards@[k].wf());
            }
        }
        assert forall|k: int, ip: u128|
            0 <= k < self.shards@.len() && #[trigger] self.shards@[k]@.contains_key(
                ip,
            ) implies shard_of(ip, self.shards@.len() as int) == k by {
            if k != index {
                assert(self.shards@[k] == before.shards@[k]);
                assert(before.shards@[k]@.contains_key(ip));
            }
        }
    }

    /// A limiter holds as many buckets as its shards hold together.
    proof fn lemma_total(&self)
        requires
            self.wf(),
        ensures
            self@.dom().finite(),
            self@.len() == buckets_in(self.shards@, self.shards@.len() as int),
    {
        self.lemma_count(self.shards@.len() as int);
        assert(self.keys_upto(self.shards@.len() as int) =~= self@.dom());
    }

    /// The addresses with a bucket in one of the first `upto` shards.
    closed spec fn keys_upto(&self, upto: int) -> Set<u128> {
        Set::new(
            |ip: u128| self@.contains_key(ip) && shard_of(ip, self.shards@.len() as int) < upto,
        )
    }

    /// The first shards hold as many buckets as there are addresses in them.
    proof fn lemma_count(&self, upto: int)
        requires
            self.wf(),
            0 <= upto <= self.shards@.len(),
        ensures
            self.keys_upto(upto).finite(),
            self.keys_upto(upto).len() == buckets_in(self.shards@, upto),
        decreases upto,
    {
        if upto == 0 {
            assert(self.keys_upto(upto) =~= Set::<u128>::empty());
        } else {
            self.lemma_count(upto - 1);
            let earlier = self.keys_upto(upto - 1);
            let last = self.shards@[upto - 1]@.dom();
            assert(self.shards@[upto - 1].wf());
            assert(earlier.disjoint(last));
            assert(self.keys_upto(upto) =~= earlier + last);
            lemma_set_disjoint_lens(earlier, last);
        }
    }

    /// A limiter of `DEFAULT_SHARDS` shards that gives each address `rate`
    /// in a second and lets it hold `capacity`.
    pub fn new(rate: Tokens, capacity: Tokens) -> (out: RateLimiter)
        ensures
            out.wf(),
            out@ == Map::<u128, Bucket>::empty(),
            out.rate() == rate,
            out.capacity() == capacity,
            out.shard_count() == DEFAULT_SHARDS,
    {
        RateLimiter::with_shards(rate, capacity, DEFAULT_SHARDS)
    }

    /// A limiter of `shard_count` shards that gives each address `rate` in a
    /// second and lets it hold `capacity`. There must be a shard.
    pub fn with_shards(rate: Tokens, capacity: Tokens, shard_count: usize) -> (out: RateLimiter)
        requires
            shard_count > 0,
        ensures
            out.wf(),
            out@ == Map::<u128, Bucket>::empty(),
            out.rate() == rate,
            out.capacity() == capacity,
            out.shard_count() == shard_count,
    {
        let mut shards: Vec<Shard> = Vec::new();
        let mut i: usize = 0;
        while i < shard_count
            invariant
                i <= shard_count,
                shards@.len() == i,
                forall|k: int|
                    0 <= k < i ==> {
                        &&& (#[trigger] shards@[k]).wf()
                        &&& shards@[k].rate() == rate
                        &&& shards@[k].capacity() == capacity
                        &&& shards@[k]@ == Map::<u128, Bucket>::empty()
                    },
            decreases shard_count - i,
        {
            shards.push(Shard::new(rate, capacity));
            i += 1;
        }
        let out = RateLimiter { shards, rate, capacity };
        assert(out@ =~= Map::<u128, Bucket>::empty());
        out
    }

    /// The shard that holds the bucket of `ip`.
    pub fn get_shard_index(&self, ip: u128) -> (index: usize)
        requires
            self.wf(),
        ensures
            index == shard_of(ip, self.shard_count() as int),
            index < self.shard_count(),
    {
        shard_index(ip, self.shards.len())
    }

    /// Checks the address `ip` at the time `now`: `true` if and only if a
    /// token was at hand for it, which is then taken. The buckets of other
    /// addresses stay as they are.
    pub fn check(&mut self, ip: u128, now: u64) -> (admitted: bool)
        requires
            old(self).wf(),
        ensures
            final(self).wf(),
            final(self).within_capacity(),
            final(self).rate() == old(self).rate(),
            final(self).capacity() == old(self).capacity(),
            final(self).shard_count() == old(self).shard_count(),
            final(self)@ == old(self)@.insert(
                ip,
                checked(old(self)@.get(ip), now, old(self).rate(), old(self).capacity()).0,
            ),
            admitted == checked(old(self)@.get(ip), now, old(self).rate(), old(self).capacity()).1,
    {
        let index = self.get_shard_index(ip);
        let ghost before = *self;
        let admitted = self.shards[index].check(ip, now);
        proof {
            assert(before.shards@[index as int].wf());
            self.lemma_shard_changed(before, index as int);
            assert(self@ =~= before@.insert(
                ip,
                checked(before@.get(ip), now, before.rate(), before.capacity()).0,
            )) by {
                assert forall|other: u128|
                    self@.contains_key(other) <==> before@.insert(
                        ip,
                        checked(before@.get(ip), now, before.rate(), before.capacity()).0,
                    ).contains_key(other) by {
                    let i = shard_of(other, self.shards@.len() as int);
                    if i != index {
                        assert(self.shards@[i] == before.shards@[i]);
                    }
                }
                assert forall|other: u128| self@.contains_key(other) implies self@[other]
                    == before@.insert(
                    ip,
                    checked(before@.get(ip), now, before.rate(), before.capacity()).0,
                )[other] by {
                    let i = shard_of(other, self.shards@.len() as int);
                    if i != index {
                        assert(self.shards@[i] == before.shards@[i]);
                    }
                }
            }
            self.lemma_wf();
        }
        admitted
    }

    /// The level of the bucket of `ip`, in units of which a token has
    /// `TOKEN`, if there is one. It is never more than the capacity.
    pub fn tokens(&self, ip: u128) -> (out: Option<u128>)
        requires
            self.wf(),
        ensures
            out == match self@.get(ip) {
                Some(bucket) => Some(bucket.tokens),
                None => None,
            },
            out matches Some(level) ==> level <= full_level(self.capacity()),
    {
        let index = self.get_shard_index(ip);
        self.shards[index].tokens(ip)
    }

    /// The number of addresses that have a bucket.
    pub fn len(&self) -> (n: u128)
        requires
            self.wf(),
        ensures
            self@.dom().finite(),
            n == self@.len(),
    {
        proof {
            self.lemma_total();
        }
        let mut n: u128 = 0;
        let mut i: usize = 0;
        while i < self.shards.len()
            invariant
                i <= self.shards@.len(),
                n == buckets_in(self.shards@, i as int),
                n <= i * 0xFFFF_FFFF_FFFF_FFFF,
            decreases self.shards@.len() - i,
        {
            n += self.shards[i].len() as u128;
            i += 1;
        }
        n
    }

    /// Drops the buckets that have been idle for more than `idle` nanoseconds
    /// at `now`, shard by shard, and says how many they were. The buckets of
    /// the other addresses stay as they are.
    pub fn evict_idle(&mut self, now: u64, idle: u64) -> (removed: u128)
        requires
            old(self).wf(),
        ensures
            final(self).wf(),
            final(self).rate() == old(self).rate(),
            final(self).capacity() == old(self).capacity(),
            final(self).shard_count() == old(self).shard_count(),
            final(self)@ == active_at(old(self)@, now, idle),
            old(self)@.dom().finite(),
            removed == old(self)@.len() - final(self)@.len(),
    {
        let ghost before = *self;
        let mut removed: u128 = 0;
        let mut i: usize = 0;
        while i < self.shards.len()
            invariant
                i <= self.shards@.len(),
                before.wf(),
                self.wf(),
                self.rate == before.rate,
                self.capacity == before.capacity,
                self.shards@.len() == before.shards@.len(),
                forall|k: int|
                    0 <= k < i ==> (#[trigger] self.shards@[k])@ == active_at(
                        before.shards@[k]@,
                        now,
                        idle,
                    ),
                forall|k: int|
                    i <= k < self.shards@.len() ==> (#[trigger] self.shards@[k])
                        == before.shards@[k],
                removed == buckets_in(before.shards@, i as int) - buckets_in(
                    self.shards@,
                    i as int,
                ),
                removed <= i * 0xFFFF_FFFF_FFFF_FFFF,
            decreases self.shards@.len() - i,
        {
            let ghost earlier = *self;
            let gone = self.shards[i].evict_idle(now, idle);
            proof {
                assert(earlier.shards@[i as int].wf());
                self.lemma_shard_changed(earlier, i as int);
                assert forall|k: int| 0 <= k < i + 1 implies (#[trigger] self.shards@[k])@
                    == active_at(before.shards@[k]@, now, idle) by {
                    if k != i {
                        assert(self.shards@[k] == earlier.shards@[k]);
                    }
                }
                assert forall|k: int| i + 1 <= k < self.shards@.len() implies (
                #[trigger] self.shards@[k]) == before.shards@[k] by {
                    assert(self.shards@[k] == earlier.shards@[k]);
                }
                lemma_buckets_in_same(self.shards@, earlier.shards@, i as int);
                assert(gone <= usize::MAX);
            }
            removed += gone as u128;
            i += 1;
        }
        proof {
            before.lemma_total();
            self.lemma_total();
            assert(self@ =~= active_at(before@, now, idle)) by {
                assert forall|ip: u128|
                    self@.contains_key(ip) <==> active_at(before@, now, idle).contains_key(
                        ip,
                    ) by {
                    let k = shard_of(ip, self.shards@.len() as int);
                    assert(self.shards@[k]@ == active_at(before.shards@[k]@, now, idle));
                }
                assert forall|ip: u128| self@.contains_key(ip) implies self@[ip] == active_at(
                    before@,
                    now,
                    idle,
                )[ip] by {
                    let k = shard_of(ip, self.shards@.len() as int);
                    assert(self.shards@[k]@ == active_at(before.shards@[k]@, now, idle));
                }
            }
        }
        removed
    }

    /// Drops the buckets that have been idle for more than `IDLE_EVICT`, and
    /// says how many they were.
    pub fn cleanup(&mut self, now: u64) -> (removed: u128)
        requires
            old(self).wf(),
        ensures
            final(self).wf(),
            final(self).rate() == old(self).rate(),
            final(self).capacity() == old(self).capacity(),
            final(self).shard_count() == old(self).shard_count(),
            final(self)@ == active_at(old(self)@, now, IDLE_EVICT),
            old(self)@.dom().finite(),
            removed == old(self)@.len() - final(self)@.len(),
    {
        self.evict_idle(now, IDLE_EVICT)
    }
}

/// Lists of shards that agree on their first `upto` shards hold as many
/// buckets in them.
proof fn lemma_buckets_in_same(a: Seq<Shard>, b: Seq<Shard>, upto: int)
    requires
        0 <= upto <= a.len(),
        a.len() == b.len(),
        forall|k: int| 0 <= k < upto ==> a[k] == b[k],
    ensures
        buckets_in(a, upto) == buckets_in(b, upto),
    decreases upto,
{
    if upto > 0 {
        lemma_buckets_in_same(a, b, upto - 1);
    }
}

} // verus!
