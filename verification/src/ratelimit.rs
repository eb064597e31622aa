use vstd::prelude::*;

use crate::route::RateLimit;

verus! {

/// One whole token, in the bucket's unit of 1e-18 tokens.
pub const TOKEN: u128 = 1_000_000_000_000_000_000;

/// Nanoseconds per second; also the factor from 1e-9 tokens to 1e-18 tokens.
pub const GIGA: u128 = 1_000_000_000;

/// Result of charging one request against a bucket.
#[derive(Debug, Clone, Copy, PartialEq, Eq)]
pub enum RateOutcome {
    Allowed,
    /// Limited, with the number of whole seconds to advertise in `Retry-After`.
    Limited { retry_after: u64 },
}

/// A token bucket: `tokens` in 1e-18 tokens, `last` the nanosecond of its last charge.
#[derive(Debug, Clone, Copy, PartialEq, Eq)]
pub struct Bucket {
    pub tokens: u128,
    pub last: u64,
}

/// A set of per-key token buckets advanced by an injected clock.
///
/// Nothing here reads the system clock. Every call passes `now` (nanoseconds
/// since the gateway started, in the wire path; an arbitrary value in tests),
/// which is what makes rate limiting deterministic and unit-testable without
/// sleeping. Quantities are exact integers: the rate is in 1e-9 tokens per
/// second, so one nanosecond at that rate adds exactly `rate_nanos` 1e-18 tokens.
#[derive(Debug)]
pub struct RateLimiter {
    buckets: Vec<(String, Bucket)>,
}

// ----- model -----------------------------------------------------------------------

pub open spec fn entries_view(v: Seq<(String, Bucket)>) -> Seq<(Seq<char>, Bucket)> {
    v.map_values(|e: (String, Bucket)| (e.0@, e.1))
}

pub open spec fn entries_map(s: Seq<(Seq<char>, Bucket)>) -> Map<Seq<char>, Bucket>
    decreases s.len(),
{
    if s.len() == 0 {
        Map::empty()
    } else {
        entries_map(s.drop_last()).insert(s.last().0, s.last().1)
    }
}

pub open spec fn unique_names(s: Seq<(Seq<char>, Bucket)>) -> bool {
    forall|i: int, j: int| 0 <= i < j < s.len() ==> #[trigger] s[i].0 != #[trigger] s[j].0
}

impl View for RateLimiter {
    type V = Map<Seq<char>, Bucket>;

    closed spec fn view(&self) -> Map<Seq<char>, Bucket> {
        entries_map(entries_view(self.buckets@))
    }
}

/// Capacity of a bucket under `limit`, in 1e-18 tokens.
pub open spec fn capacity(limit: RateLimit) -> int {
    limit.burst_nanos * GIGA
}

/// Refill per second under `limit`, in 1e-18 tokens.
pub open spec fn per_second(limit: RateLimit) -> int {
    limit.rate_nanos * GIGA
}

/// The bucket a key starts from: its stored one, or a full one stamped `now`.
pub open spec fn start_bucket(m: Map<Seq<char>, Bucket>, key: Seq<char>, limit: RateLimit, now: u64) -> Bucket {
    if m.contains_key(key) {
        m[key]
    } else {
        Bucket { tokens: capacity(limit) as u128, last: now }
    }
}

/// Tokens after continuous refill up to `now`, capped at the capacity.
pub open spec fn refilled(b: Bucket, limit: RateLimit, now: u64) -> int {
    let elapsed: int = if now >= b.last {
        now - b.last
    } else {
        0
    };
    let t = b.tokens + elapsed * limit.rate_nanos;
    if t < capacity(limit) {
        t
    } else {
        capacity(limit)
    }
}

/// Whole seconds until one token, rounded up and at least one; the largest `u64`
/// when the bucket never refills.
pub open spec fn retry_seconds(tokens: int, limit: RateLimit) -> int {
    if limit.rate_nanos == 0 {
        u64::MAX as int
    } else {
        let s = (TOKEN - tokens + per_second(limit) - 1) / per_second(limit);
        if s < 1 {
            1
        } else {
            s
        }
    }
}

/// The outcome of one charge against `key` at `now`.
pub open spec fn charge_outcome(m: Map<Seq<char>, Bucket>, key: Seq<char>, limit: RateLimit, now: u64) -> RateOutcome {
    let t = refilled(start_bucket(m, key, limit, now), limit, now);
    if t >= TOKEN {
        RateOutcome::Allowed
    } else {
        RateOutcome::Limited { retry_after: retry_seconds(t, limit) as u64 }
    }
}

/// The bucket store after one charge against `key` at `now`.
pub open spec fn charge_state(m: Map<Seq<char>, Bucket>, key: Seq<char>, limit: RateLimit, now: u64) -> Map<Seq<char>, Bucket> {
    let t = refilled(start_bucket(m, key, limit, now), limit, now);
    let left = if t >= TOKEN {
        t - TOKEN
    } else {
        t
    };
    m.insert(key, Bucket { tokens: left as u128, last: now })
}

proof fn lemma_entries_map(s: Seq<(Seq<char>, Bucket)>)
    requires
        unique_names(s),
    ensures
        forall|i: int|
            0 <= i < s.len() ==> entries_map(s).contains_key(#[trigger] s[i].0) && entries_map(s)[s[i].0]
                == s[i].1,
        forall|k: Seq<char>|
            entries_map(s).contains_key(k) ==> exists|i: int| 0 <= i < s.len() && #[trigger] s[i].0 == k,
    decreases s.len(),
{
    if s.len() > 0 {
        let p = s.drop_last();
        assert forall|i: int, j: int| 0 <= i < j < p.len() implies #[trigger] p[i].0 != #[trigger] p[j].0 by {
            assert(p[i] == s[i] && p[j] == s[j]);
        }
        lemma_entries_map(p);
        assert forall|i: int| 0 <= i < s.len() implies entries_map(s).contains_key(#[trigger] s[i].0)
            && entries_map(s)[s[i].0] == s[i].1 by {
            if i < s.len() - 1 {
                assert(s[i] == p[i]);
                assert(s[i].0 != s[s.len() - 1].0);
            }
        }
        assert forall|k: Seq<char>| entries_map(s).contains_key(k) implies exists|i: int|
            0 <= i < s.len() && #[trigger] s[i].0 == k by {
            if k != s.last().0 {
                assert(entries_map(p).contains_key(k));
                let i = choose|i: int| 0 <= i < p.len() && #[trigger] p[i].0 == k;
                assert(s[i] == p[i]);
            } else {
                assert(s[s.len() - 1].0 == k);
            }
        }
    }
}

proof fn lemma_entries_update(s: Seq<(Seq<char>, Bucket)>, i: int, b: Bucket)
    requires
        unique_names(s),
        0 <= i < s.len(),
    ensures
        entries_map(s.update(i, (s[i].0, b))) == entries_map(s).insert(s[i].0, b),
        unique_names(s.update(i, (s[i].0, b))),
    decreases s.len(),
{
    let u = s.update(i, (s[i].0, b));
    assert forall|x: int, y: int| 0 <= x < y < u.len() implies #[trigger] u[x].0 != #[trigger] u[y].0 by {
        assert(u[x].0 == s[x].0 && u[y].0 == s[y].0);
    }
    let p = s.drop_last();
    assert forall|x: int, y: int| 0 <= x < y < p.len() implies #[trigger] p[x].0 != #[trigger] p[y].0 by {
        assert(p[x] == s[x] && p[y] == s[y]);
    }
    if i == s.len() - 1 {
        assert(u.drop_last() =~= p);
        assert(entries_map(u) =~= entries_map(s).insert(s[i].0, b));
    } else {
        lemma_entries_update(p, i, b);
        assert(u.drop_last() =~= p.update(i, (p[i].0, b)));
        assert(s.last().0 != s[i].0);
        assert(entries_map(u) =~= entries_map(s).insert(s[i].0, b));
    }
}

proof fn lemma_ceil_small(d: int, p: int)
    requires
        0 <= d <= TOKEN,
        p >= 1,
    ensures
        (d + p - 1) / p <= TOKEN,
        (d + p - 1) / p >= 0,
{
    assert((d + p - 1) / p <= (TOKEN + p - 1) / p) by (nonlinear_arith)
        requires
            0 <= d <= TOKEN,
            p >= 1,
    ;
    assert((TOKEN + p - 1) / p <= TOKEN) by (nonlinear_arith)
        requires
            p >= 1,
    ;
    assert((d + p - 1) / p >= 0) by (nonlinear_arith)
        requires
            0 <= d,
            p >= 1,
    ;
}

// ----- implementation --------------------------------------------------------------

impl Default for RateLimiter {
    /// An empty store, as `new` gives.
    fn default() -> (r: RateLimiter)
        ensures
            r@ == Map::<Seq<char>, Bucket>::empty(),
    {
        RateLimiter::new()
    }
}

impl RateLimiter {
    #[verifier::type_invariant]
    closed spec fn names_unique(self) -> bool {
        unique_names(entries_view(self.buckets@))
    }

    pub fn new() -> (r: RateLimiter)
        ensures
            r@ == Map::<Seq<char>, Bucket>::empty(),
    {
        let r = RateLimiter { buckets: Vec::new() };
        assert(entries_view(r.buckets@) =~= Seq::<(Seq<char>, Bucket)>::empty());
        r
    }

    /// Charge one token to `key`'s bucket at time `now` (nanoseconds). A fresh
    /// bucket starts full at `burst`. Tokens refill continuously at `rate` per
    /// second and are capped at `burst`. When under one token, the request is
    /// limited and the advertised `Retry-After` is the ceiling of the seconds
    /// until one token, at least one.
    pub fn check(&mut self, key: &str, limit: &RateLimit, now: u64) -> (r: RateOutcome)
        ensures
            r == charge_outcome(old(self)@, key@, *limit, now),
            final(self)@ == charge_state(old(self)@, key@, *limit, now),
    {
        proof {
            use_type_invariant(&*self);
        }
        let ghost ev = entries_view(self.buckets@);
        let name = String::from_str(key);
        let mut i: usize = 0;
        while i < self.buckets.len() && !(self.buckets[i].0 == name)
            invariant
                ev == entries_view(self.buckets@),
                unique_names(ev),
                i <= self.buckets.len(),
                name@ == key@,
                forall|j: int| 0 <= j < i ==> ev[j].0 != key@,
            decreases self.buckets.len() - i,
        {
            assert(ev[i as int].0 == self.buckets@[i as int].0@);
            i = i + 1;
        }
        proof {
            lemma_entries_map(ev);
        }
        let found = i < self.buckets.len();
        let cap: u128 = limit.burst_nanos as u128 * GIGA;
        let start = if found {
            assert(ev[i as int].0 == key@);
            self.buckets[i].1
        } else {
            assert(!self@.contains_key(key@));
            Bucket { tokens: cap, last: now }
        };
        assert(start == start_bucket(old(self)@, key@, *limit, now));
        let elapsed: u64 = if now >= start.last {
            now - start.last
        } else {
            0
        };
        let r: u64 = limit.rate_nanos;
        assert((elapsed as int) * (r as int) <= u128::MAX) by (nonlinear_arith)
            requires
                elapsed <= u64::MAX,
                r <= u64::MAX,
        ;
        let add: u128 = elapsed as u128 * r as u128;
        let t: u128 = if start.tokens >= cap {
            cap
        } else if add >= cap - start.tokens {
            cap
        } else {
            start.tokens + add
        };
        assert(t == refilled(start, *limit, now));
        let (left, outcome) = if t >= TOKEN {
            (t - TOKEN, RateOutcome::Allowed)
        } else {
            let per_sec: u128 = limit.rate_nanos as u128 * GIGA;
            let secs: u64 = if limit.rate_nanos == 0 {
                u64::MAX
            } else {
                let deficit: u128 = TOKEN - t;
                let s: u128 = (deficit + per_sec - 1) / per_sec;
                proof {
                    lemma_ceil_small(deficit as int, per_sec as int);
                }
                if s < 1 {
                    1
                } else {
                    s as u64
                }
            };
            (t, RateOutcome::Limited { retry_after: secs })
        };
        let nb = Bucket { tokens: left, last: now };
        let mut entries: Vec<(String, Bucket)> = Vec::new();
        std::mem::swap(&mut entries, &mut self.buckets);
        assert(entries_view(entries@) == ev);
        if found {
            proof {
                lemma_entries_update(ev, i as int, nb);
            }
            entries.set(i, (name, nb));
            assert(entries_view(entries@) =~= ev.update(i as int, (ev[i as int].0, nb)));
        } else {
            entries.push((name, nb));
            assert(entries_view(entries@) =~= ev.push((key@, nb)));
            proof {
                let s2 = ev.push((key@, nb));
                assert forall|x: int, y: int| 0 <= x < y < s2.len() implies #[trigger] s2[x].0
                    != #[trigger] s2[y].0 by {
                    if y == ev.len() {
                        assert(s2[x] == ev[x]);
                    } else {
                        assert(s2[x] == ev[x] && s2[y] == ev[y]);
                    }
                }
                assert(s2.drop_last() =~= ev);
            }
        }
        self.buckets = entries;
        outcome
    }
}


// ----- laws ------------------------------------------------------------------------

/// Buckets are isolated per key: charging `key` changes no other key's bucket.
pub proof fn law_buckets_isolated(m: Map<Seq<char>, Bucket>, key: Seq<char>, limit: RateLimit, now: u64, other: Seq<char>)
    requires
        other != key,
    ensures
        charge_state(m, key, limit, now).contains_key(other) == m.contains_key(other),
        m.contains_key(other) ==> charge_state(m, key, limit, now)[other] == m[other],
{
}

/// Tokens never exceed the burst: after a charge the key's bucket holds at most
/// the capacity, and it is stamped with the time of the charge.
pub proof fn law_tokens_capped(m: Map<Seq<char>, Bucket>, key: Seq<char>, limit: RateLimit, now: u64)
    ensures
        charge_state(m, key, limit, now).contains_key(key),
        charge_state(m, key, limit, now)[key].tokens <= capacity(limit),
        charge_state(m, key, limit, now)[key].last == now,
{
}

/// `n` charges against `key`, all at the instant `now`.
pub open spec fn charges(m: Map<Seq<char>, Bucket>, key: Seq<char>, limit: RateLimit, now: u64, n: nat) -> Map<Seq<char>, Bucket>
    decreases n,
{
    if n == 0 {
        m
    } else {
        charge_state(charges(m, key, limit, now, (n - 1) as nat), key, limit, now)
    }
}

proof fn lemma_refill_same_instant(b: Bucket, limit: RateLimit, now: u64)
    requires
        b.last == now,
        b.tokens <= capacity(limit),
    ensures
        refilled(b, limit, now) == b.tokens,
{
    let e: int = now - b.last;
    assert(e * limit.rate_nanos == 0) by (nonlinear_arith)
        requires
            e == 0,
    ;
}

proof fn lemma_capacity_fits(limit: RateLimit)
    ensures
        0 <= capacity(limit) <= u128::MAX,
{
    assert(0 <= limit.burst_nanos * GIGA <= u128::MAX) by (nonlinear_arith)
        requires
            limit.burst_nanos <= u64::MAX,
    ;
}

/// The number of whole tokens in a full bucket.
pub open spec fn whole_burst(limit: RateLimit) -> nat {
    (capacity(limit) / TOKEN as int) as nat
}

proof fn lemma_charges_same_instant(m: Map<Seq<char>, Bucket>, key: Seq<char>, limit: RateLimit, now: u64, k: nat)
    requires
        !m.contains_key(key),
        k <= whole_burst(limit),
    ensures
        start_bucket(charges(m, key, limit, now, k), key, limit, now) == (Bucket {
            tokens: (capacity(limit) - k * TOKEN) as u128,
            last: now,
        }),
    decreases k,
{
    assert(capacity(limit) >= whole_burst(limit) * TOKEN) by (nonlinear_arith)
        requires
            capacity(limit) >= 0,
            whole_burst(limit) == capacity(limit) / TOKEN as int,
    ;
    assert(capacity(limit) - k * TOKEN >= 0) by (nonlinear_arith)
        requires
            capacity(limit) >= whole_burst(limit) * TOKEN,
            k <= whole_burst(limit),
    ;
    lemma_capacity_fits(limit);
    if k > 0 {
        lemma_charges_same_instant(m, key, limit, now, (k - 1) as nat);
        assert(capacity(limit) - (k - 1) * TOKEN >= TOKEN) by (nonlinear_arith)
            requires
                capacity(limit) - k * TOKEN >= 0,
        ;
        assert((capacity(limit) - (k - 1) * TOKEN) - TOKEN == capacity(limit) - k * TOKEN) by (
        nonlinear_arith);
        let prev = charges(m, key, limit, now, (k - 1) as nat);
        let b = start_bucket(prev, key, limit, now);
        assert(b.tokens == capacity(limit) - (k - 1) * TOKEN);
        lemma_refill_same_instant(b, limit, now);
        assert(charges(m, key, limit, now, k) == charge_state(prev, key, limit, now));
    }
}

/// A fresh key may spend its whole burst at one instant, and the next charge at
/// that instant is limited.
pub proof fn law_burst_then_limited(m: Map<Seq<char>, Bucket>, key: Seq<char>, limit: RateLimit, now: u64, k: nat)
    requires
        !m.contains_key(key),
        k <= whole_burst(limit),
    ensures
        k < whole_burst(limit) ==> charge_outcome(charges(m, key, limit, now, k), key, limit, now)
            == RateOutcome::Allowed,
        k == whole_burst(limit) ==> charge_outcome(charges(m, key, limit, now, k), key, limit, now)
            is Limited,
{
    lemma_charges_same_instant(m, key, limit, now, k);
    lemma_capacity_fits(limit);
    let b = start_bucket(charges(m, key, limit, now, k), key, limit, now);
    lemma_refill_same_instant(b, limit, now);
    if k < whole_burst(limit) {
        assert(capacity(limit) - k * TOKEN >= TOKEN) by (nonlinear_arith)
            requires
                k + 1 <= whole_burst(limit),
                whole_burst(limit) == capacity(limit) / TOKEN as int,
                capacity(limit) >= 0,
        ;
    } else {
        assert(capacity(limit) - k * TOKEN < TOKEN) by (nonlinear_arith)
            requires
                k == whole_burst(limit),
                whole_burst(limit) == capacity(limit) / TOKEN as int,
                capacity(limit) >= 0,
        ;
    }
}

proof fn lemma_ceil(d: int, p: int)
    requires
        d >= 1,
        p >= 1,
    ensures
        ((d + p - 1) / p) * p >= d,
        ((d + p - 1) / p - 1) * p <= d - 1,
        (d + p - 1) / p >= 1,
{
    let q = (d + p - 1) / p;
    let r = (d + p - 1) % p;
    assert(d + p - 1 == q * p + r && 0 <= r < p) by (nonlinear_arith)
        requires
            p >= 1,
            q == (d + p - 1) / p,
            r == (d + p - 1) % p,
    ;
    assert(q * p >= d) by (nonlinear_arith)
        requires
            d + p - 1 == q * p + r,
            r < p,
    ;
    assert((q - 1) * p <= d - 1) by (nonlinear_arith)
        requires
            d + p - 1 == q * p + r,
            r >= 0,
    ;
    assert(q >= 1) by (nonlinear_arith)
        requires
            q * p >= d,
            d >= 1,
            p >= 1,
    ;
}

/// The advertised `Retry-After` is exact: waiting that many seconds (with no
/// charge in between) buys a token, and waiting one second less does not.
/// This needs a refilling bucket whose capacity holds at least one token.
pub proof fn law_retry_after_exact(m: Map<Seq<char>, Bucket>, key: Seq<char>, limit: RateLimit, t0: u64, secs: u64)
    requires
        charge_outcome(m, key, limit, t0) == (RateOutcome::Limited { retry_after: secs }),
        limit.rate_nanos > 0,
        capacity(limit) >= TOKEN,
        t0 + secs * GIGA <= u64::MAX,
    ensures
        charge_outcome(charge_state(m, key, limit, t0), key, limit, (t0 + secs * GIGA) as u64)
            == RateOutcome::Allowed,
        secs > 1 ==> charge_outcome(
            charge_state(m, key, limit, t0),
            key,
            limit,
            (t0 + (secs - 1) * GIGA) as u64,
        ) is Limited,
{
    let t = refilled(start_bucket(m, key, limit, t0), limit, t0);
    let d = TOKEN - t;
    let p = per_second(limit);
    assert(p >= 1) by (nonlinear_arith)
        requires
            p == limit.rate_nanos * GIGA,
            limit.rate_nanos > 0,
    ;
    lemma_ceil(d, p);
    lemma_ceil_small(d, p);
    let m1 = charge_state(m, key, limit, t0);
    assert(m1[key] == Bucket { tokens: t as u128, last: t0 });
    let q = (d + p - 1) / p;
    assert(secs == q);
    let t1 = (t0 + secs * GIGA) as u64;
    assert((t1 - t0) * limit.rate_nanos == secs * p) by (nonlinear_arith)
        requires
            t1 - t0 == secs * GIGA,
            p == limit.rate_nanos * GIGA,
    ;
    if secs > 1 {
        let t2 = (t0 + (secs - 1) * GIGA) as u64;
        assert((t2 - t0) * limit.rate_nanos == (secs - 1) * p) by (nonlinear_arith)
            requires
                t2 - t0 == (secs - 1) * GIGA,
                p == limit.rate_nanos * GIGA,
        ;
    }
}

} // verus!
