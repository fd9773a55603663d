//! Rate limiting.
//!
//! Two strategies (fixed window, sliding window) over two bucket scopes (per
//! client address, or one bucket for the route). Per-address buckets live in a
//! sharded table, so that requests of different clients need not wait for each
//! other; within one bucket every check is a single step that reads and moves the
//! counters, so a caller that holds the bucket's shard admits an exact count.
//!
//! Idle buckets can be swept at any time: a bucket is idle when a fresh one would
//! decide the same, so sweeping never changes a decision.

use std::collections::hash_map::DefaultHasher;
use std::collections::HashMap;
use std::hash::Hasher;

use vstd::prelude::*;
use vstd::std_specs::hash::*;

use crate::clock::{at_least_one, ceil_secs, whole_secs, Duration, Instant, NANOS_PER_SEC};
use crate::config::{Config, Per, RateLimit, Route, Strategy};
use crate::wide::product_exceeds;

verus! {

broadcast use group_hash_axioms;

/// The number of shards of a per-address table.
pub const SHARDS: usize = 32;

/// How often, in seconds, idle buckets are swept.
pub const SWEEP_INTERVAL_SECS: u64 = 60;

/// A client address.
#[derive(Clone, Copy, Debug, PartialEq, Eq, Structural)]
pub enum IpAddr {
    V4(u32),
    V6(u128),
}

/// The counters of one bucket.
#[derive(Clone, Copy, Debug, PartialEq, Eq, Structural)]
pub struct Entry {
    /// Start of the current window.
    pub window_start: Instant,
    /// Requests admitted in the current window.
    pub count: u64,
    /// Requests admitted in the window before (sliding window only).
    pub prev_count: u64,
}

/// A limit and how it counts.
#[derive(Clone, Copy, Debug, PartialEq, Eq, Structural)]
pub struct Policy {
    pub requests: u64,
    pub window: Duration,
    pub strategy: Strategy,
}

/// A bucket nothing was counted in.
pub open spec fn fresh_entry(now: Instant) -> Entry {
    Entry { window_start: now, count: 0, prev_count: 0 }
}

/// `a / b`, rounded up.
pub open spec fn ceil_div(a: int, b: int) -> int {
    a / b + if a % b > 0 {
        1int
    } else {
        0
    }
}

impl Entry {
    /// A bucket whose window starts now.
    pub fn new(now: Instant) -> (e: Entry)
        ensures
            e == fresh_entry(now),
    {
        Entry { window_start: now, count: 0, prev_count: 0 }
    }
}

impl Policy {
    /// The bucket as it stands at `now`, its window moved on if it has run out.
    ///
    /// A fixed window starts anew. A sliding one becomes the previous window when
    /// it ran out less than a window ago, and is forgotten otherwise.
    pub open spec fn rolled(self, e: Entry, now: Instant) -> Entry {
        let elapsed = now.since(e.window_start);
        if elapsed < self.window.nanos {
            e
        } else {
            match self.strategy {
                Strategy::FixedWindow => Entry { window_start: now, count: 0, ..e },
                Strategy::SlidingWindow => if elapsed < 2 * self.window.nanos {
                    Entry {
                        window_start: Instant {
                            nanos: (e.window_start.nanos + self.window.nanos) as u128,
                        },
                        count: 0,
                        prev_count: e.count,
                    }
                } else {
                    fresh_entry(now)
                },
            }
        }
    }

    /// Whether one more request fits in a bucket whose window is current. A sliding
    /// window counts the requests of the previous window in proportion to how much
    /// of it still lies within one window of `now`: it admits if
    /// `prev * (window - elapsed) / window + count + 1 <= requests`.
    pub open spec fn has_room(self, e: Entry, now: Instant) -> bool {
        match self.strategy {
            Strategy::FixedWindow => e.count < self.requests,
            Strategy::SlidingWindow => e.prev_count * (self.window.nanos - now.since(
                e.window_start,
            )) + (e.count + 1) * self.window.nanos <= self.requests * self.window.nanos,
        }
    }

    /// Whether a request at `now` is admitted.
    pub open spec fn admits(self, e: Entry, now: Instant) -> bool {
        self.has_room(self.rolled(e, now), now)
    }

    /// Nanoseconds from `now` to the end of the bucket's window.
    pub open spec fn remaining(self, e: Entry, now: Instant) -> int {
        let left = e.window_start.nanos + self.window.nanos - now.nanos;
        if left < 0 {
            0
        } else {
            left
        }
    }

    /// How far into the next window a full sliding window leaves no room: the least
    /// time `x` by which enough of its weight is gone, that is with
    /// `count * x >= (count + 1 - requests) * window`.
    pub open spec fn decay(self, e: Entry) -> int {
        ceil_div((e.count + 1 - self.requests) * self.window.nanos, e.count as int)
    }

    /// Nanoseconds from `now` after which a bucket without room has room again, if
    /// nobody else asks. That is the end of its window, at which a fixed window
    /// starts anew and what a sliding one counted of the previous is gone. Only
    /// where a sliding window is full does its own count have to lose weight first.
    /// (A limit of no requests never has room.)
    pub open spec fn until_room(self, e: Entry, now: Instant) -> int {
        if self.strategy is SlidingWindow && e.count >= self.requests > 0 {
            self.remaining(e, now) + self.decay(e)
        } else {
            self.remaining(e, now)
        }
    }

    /// What a request at `now` is told.
    pub open spec fn verdict(self, e: Entry, now: Instant) -> Result<(), u64> {
        if self.admits(e, now) {
            Ok(())
        } else {
            Err(at_least_one(whole_secs(self.until_room(self.rolled(e, now), now))) as u64)
        }
    }

    /// The bucket after a request at `now`: a rejected request is not counted.
    pub open spec fn next(self, e: Entry, now: Instant) -> Entry {
        let at = self.rolled(e, now);
        if self.admits(e, now) {
            Entry { count: (at.count + 1) as u64, ..at }
        } else {
            at
        }
    }

    /// Whether a fresh bucket would decide the same.
    pub open spec fn idle(self, e: Entry, now: Instant) -> bool {
        match self.strategy {
            Strategy::FixedWindow => now.since(e.window_start) >= self.window.nanos,
            Strategy::SlidingWindow => now.since(e.window_start) >= 2 * self.window.nanos,
        }
    }

    /// The invariant of a bucket: a fixed window has no previous one, and no more was
    /// counted than the limit (a sliding window of no length has none).
    pub open spec fn holds(self, e: Entry) -> bool {
        &&& self.strategy is FixedWindow ==> e.prev_count == 0
        &&& self.strategy is FixedWindow || self.window.nanos > 0 ==> e.count <= self.requests
    }

    /// Admit or reject one request. The bucket is read and moved in one step, so
    /// the count is exact for whoever holds the bucket.
    pub fn decide(&self, entry: &mut Entry, now: Instant) -> (r: Result<(), u64>)
        requires
            self.holds(*old(entry)),
        ensures
            r == self.verdict(*old(entry), now),
            *final(entry) == self.next(*old(entry), now),
            self.holds(*final(entry)),
    {
        match self.strategy {
            Strategy::FixedWindow => self.admit_fixed(entry, now),
            Strategy::SlidingWindow => self.admit_sliding(entry, now),
        }
    }

    /// Fixed window: a hard counter that starts anew when its window runs out.
    pub fn admit_fixed(&self, entry: &mut Entry, now: Instant) -> (r: Result<(), u64>)
        requires
            self.strategy is FixedWindow,
            self.holds(*old(entry)),
        ensures
            r == self.verdict(*old(entry), now),
            *final(entry) == self.next(*old(entry), now),
            self.holds(*final(entry)),
    {
        if now.saturating_duration_since(entry.window_start).nanos >= self.window.nanos {
            entry.window_start = now;
            entry.count = 0;
        }
        if entry.count >= self.requests {
            return Err(self.wait(entry, now));
        }
        entry.count = entry.count + 1;
        Ok(())
    }

    /// Sliding window: the current window's count and, weighted by how much of it
    /// still matters, the previous window's.
    pub fn admit_sliding(&self, entry: &mut Entry, now: Instant) -> (r: Result<(), u64>)
        requires
            self.strategy is SlidingWindow,
            self.holds(*old(entry)),
        ensures
            r == self.verdict(*old(entry), now),
            *final(entry) == self.next(*old(entry), now),
            self.holds(*final(entry)),
    {
        let window: u128 = self.window.nanos;
        let mut elapsed: u128 = now.saturating_duration_since(entry.window_start).nanos;
        if elapsed >= window {
            if elapsed - window < window {
                entry.prev_count = entry.count;
                entry.count = 0;
                entry.window_start = Instant { nanos: entry.window_start.nanos + window };
                elapsed = elapsed - window;
            } else {
                *entry = Entry::new(now);
                elapsed = 0;
            }
        }
        assert(*entry == self.rolled(*old(entry), now));
        assert(elapsed == now.since(entry.window_start));
        let ghost w = window as int;
        let ghost left = w - elapsed;
        let ghost (prev, count, limit) = (
            entry.prev_count as int,
            entry.count as int,
            self.requests as int,
        );
        assert(prev * left >= 0) by (nonlinear_arith)
            requires
                prev >= 0,
                left >= 0,
        ;
        if entry.count >= self.requests {
            if window > 0 {
                assert(prev * left + (count + 1) * w > limit * w) by (nonlinear_arith)
                    requires
                        prev * left >= 0,
                        count >= limit,
                        w > 0,
                ;
                return Err(self.wait(entry, now));
            }
            assert(prev * left + (count + 1) * w <= limit * w) by (nonlinear_arith)
                requires
                    left == 0,
                    w == 0,
            ;
        } else {
            let room: u64 = self.requests - entry.count - 1;
            assert(room * w == limit * w - (count + 1) * w) by (nonlinear_arith)
                requires
                    room == limit - count - 1,
            ;
            if product_exceeds(entry.prev_count, window - elapsed, room, window) {
                return Err(self.wait(entry, now));
            }
        }
        entry.count = entry.count + 1;
        Ok(())
    }

    /// Whole seconds until a bucket without room has room, at least one.
    fn wait(&self, entry: &Entry, now: Instant) -> (secs: u64)
        requires
            self.strategy is FixedWindow || (self.window.nanos > 0 && self.holds(*entry)),
        ensures
            secs == at_least_one(whole_secs(self.until_room(*entry, now))),
    {
        let left: u128 = if now.nanos >= entry.window_start.nanos {
            self.window.nanos.saturating_sub(now.nanos - entry.window_start.nanos)
        } else {
            self.window.nanos.saturating_add(entry.window_start.nanos - now.nanos)
        };
        let full: bool = match self.strategy {
            Strategy::SlidingWindow => entry.count >= self.requests && self.requests > 0,
            Strategy::FixedWindow => false,
        };
        let more: u128 = if full {
            let share: u128 = self.requests as u128;
            let rest: u128 = self.window.nanos % share;
            let x: u128 = self.window.nanos / share;
            proof {
                let w = self.window.nanos as int;
                assert((entry.count + 1 - self.requests) * w == w) by (nonlinear_arith)
                    requires
                        entry.count == self.requests,
                ;
                vstd::arithmetic::div_mod::lemma_fundamental_div_mod(w, share as int);
                assert(x <= w) by (nonlinear_arith)
                    requires
                        w == share * x + rest,
                        share >= 1,
                        rest >= 0,
                        x >= 0,
                ;
                assert(rest > 0 ==> x < w) by (nonlinear_arith)
                    requires
                        w == share * x + rest,
                        share >= 1,
                        rest >= 0,
                        x >= 0,
                ;
            }
            if rest > 0 {
                x + 1
            } else {
                x
            }
        } else {
            0
        };
        let secs: u64 = ceil_secs(Duration { nanos: left.saturating_add(more) });
        if secs < 1 {
            1
        } else {
            secs
        }
    }

    /// Whether the bucket can be dropped.
    pub fn is_idle(&self, entry: &Entry, now: Instant) -> (r: bool)
        ensures
            r == self.idle(*entry, now),
    {
        let elapsed: u128 = now.saturating_duration_since(entry.window_start).nanos;
        match self.strategy {
            Strategy::FixedWindow => elapsed >= self.window.nanos,
            Strategy::SlidingWindow => elapsed >= self.window.nanos && elapsed - self.window.nanos
                >= self.window.nanos,
        }
    }
}

/// How many of a run of requests are admitted, and the bucket after them.
pub open spec fn run(policy: Policy, e: Entry, times: Seq<Instant>) -> (nat, Entry)
    decreases times.len(),
{
    if times.len() == 0 {
        (0, e)
    } else {
        let (admitted, at) = run(policy, e, times.drop_last());
        let now = times.last();
        (
            admitted + if policy.admits(at, now) {
                1nat
            } else {
                0
            },
            policy.next(at, now),
        )
    }
}

/// Law: the count is exact. Of any number of requests that fall within one window
/// of the first, a fresh bucket admits exactly the first `requests`, under either
/// strategy.
pub proof fn law_exact_count(policy: Policy, start: Instant, times: Seq<Instant>)
    requires
        policy.window.nanos > 0,
        forall|i: int|
            0 <= i < times.len() ==> (#[trigger] times[i]).since(start) < policy.window.nanos,
    ensures
        run(policy, fresh_entry(start), times).0 == if times.len() <= policy.requests {
            times.len()
        } else {
            policy.requests as nat
        },
{
    lemma_exact_count(policy, start, times);
}

proof fn lemma_exact_count(policy: Policy, start: Instant, times: Seq<Instant>)
    requires
        policy.window.nanos > 0,
        forall|i: int|
            0 <= i < times.len() ==> (#[trigger] times[i]).since(start) < policy.window.nanos,
    ensures
        ({
            let (admitted, at) = run(policy, fresh_entry(start), times);
            &&& admitted == if times.len() <= policy.requests {
                times.len()
            } else {
                policy.requests as nat
            }
            &&& at == (Entry { window_start: start, count: admitted as u64, prev_count: 0 })
        }),
    decreases times.len(),
{
    if times.len() > 0 {
        let front = times.drop_last();
        assert forall|i: int| 0 <= i < front.len() implies (#[trigger] front[i]).since(start)
            < policy.window.nanos by {
            assert(times[i].since(start) < policy.window.nanos);
        }
        lemma_exact_count(policy, start, front);
        let (admitted, at) = run(policy, fresh_entry(start), front);
        let now = times.last();
        assert(times[times.len() - 1].since(start) < policy.window.nanos);
        assert(policy.rolled(at, now) == at);
        let w = policy.window.nanos as int;
        let limit = policy.requests as int;
        let left = w - now.since(start);
        assert(0 * left == 0) by (nonlinear_arith);
        assert((admitted + 1) * w <= limit * w <==> admitted + 1 <= limit) by (nonlinear_arith)
            requires
                w > 0,
        ;
    }
}

/// Law: sweeping never changes a decision. From the moment a bucket is idle, any
/// later request is told the same, and leaves the same bucket behind, as if the
/// bucket had been made for it.
pub proof fn law_sweeping_changes_nothing(policy: Policy, e: Entry, now: Instant, later: Instant)
    requires
        policy.holds(e),
        policy.idle(e, now),
        now.nanos <= later.nanos,
        now.nanos >= e.window_start.nanos,
    ensures
        policy.verdict(e, later) == policy.verdict(fresh_entry(later), later),
        policy.next(e, later) == policy.next(fresh_entry(later), later),
{
}

/// Law: a fixed window that rejected a request has room again once the reported
/// wait is over, if nobody else asks in between.
pub proof fn law_fixed_window_wait_is_long_enough(policy: Policy, e: Entry, now: Instant, later: Instant)
    requires
        policy.strategy is FixedWindow,
        policy.requests > 0,
        policy.verdict(e, now) is Err,
        policy.verdict(e, now)->Err_0 < u64::MAX,
        later.nanos >= now.nanos + policy.verdict(e, now)->Err_0 * NANOS_PER_SEC,
    ensures
        policy.verdict(policy.next(e, now), later) is Ok,
{
}

/// Law: a sliding window that rejected a request has room again once the reported
/// wait is over, if nobody else asks in between.
pub proof fn law_sliding_window_wait_is_long_enough(
    policy: Policy,
    e: Entry,
    now: Instant,
    later: Instant,
)
    requires
        policy.strategy is SlidingWindow,
        policy.requests > 0,
        policy.window.nanos > 0,
        policy.holds(e),
        policy.verdict(e, now) is Err,
        policy.verdict(e, now)->Err_0 < u64::MAX,
        later.nanos >= now.nanos + policy.verdict(e, now)->Err_0 * NANOS_PER_SEC,
    ensures
        policy.verdict(policy.next(e, now), later) is Ok,
{
    let at = policy.rolled(e, now);
    let w = policy.window.nanos as int;
    let limit = policy.requests as int;
    assert(policy.next(e, now) == at);
    assert(policy.holds(at));
    if at.count == limit {
        law_decay_is_least(policy, at, 0);
        assert((at.count + 1 - limit) * w == w) by (nonlinear_arith)
            requires
                at.count == limit,
        ;
    }
    assert(later.nanos >= now.nanos + policy.until_room(at, now));
    assert(later.since(at.window_start) >= w);
    let then = policy.rolled(at, later);
    let left = w - later.since(then.window_start);
    let prev = then.prev_count as int;
    assert(0 <= left <= w && then.count == 0);
    if at.count < limit || later.since(at.window_start) >= 2 * w {
        assert(prev * left + (0 + 1) * w <= limit * w) by (nonlinear_arith)
            requires
                0 <= left <= w,
                0 <= prev <= limit - 1,
        ;
    } else {
        let x = policy.decay(at);
        assert(left <= w - x);
        assert(prev * left + (0 + 1) * w <= limit * w) by (nonlinear_arith)
            requires
                0 <= left <= w - x,
                prev == limit,
                limit > 0,
                limit * x >= w,
        ;
    }
}

/// Law: the time a full window has to lose weight for is enough, and no less is.
pub proof fn law_decay_is_least(policy: Policy, e: Entry, y: int)
    requires
        e.count >= policy.requests > 0,
    ensures
        e.count * policy.decay(e) >= (e.count + 1 - policy.requests) * policy.window.nanos,
        y < policy.decay(e) ==> e.count * y < (e.count + 1 - policy.requests)
            * policy.window.nanos,
        policy.decay(e) >= 0,
{
    let a = (e.count + 1 - policy.requests) * policy.window.nanos;
    let b = e.count as int;
    let q = a / b;
    let r = a % b;
    vstd::arithmetic::div_mod::lemma_fundamental_div_mod(a, b);
    vstd::arithmetic::div_mod::lemma_mod_bound(a, b);
    let x = policy.decay(e);
    assert(a >= 0) by (nonlinear_arith)
        requires
            a == (e.count + 1 - policy.requests) * policy.window.nanos,
            e.count >= policy.requests,
            policy.window.nanos >= 0,
    ;
    assert(b * x >= a && x >= 0 && (y < x ==> b * y < a)) by (nonlinear_arith)
        requires
            a == b * q + r,
            a >= 0,
            0 <= r < b,
            x == q + if r > 0 {
                1int
            } else {
                0
            },
    ;
}

/// Law: a fixed window in full. Of requests that fall within the window of a bucket
/// nothing was counted in, the first `requests` are admitted and every other is told
/// the time to the window's end, in seconds rounded up and at least one. A rejected
/// request leaves the bucket as it was, and once the wait it was told is over, one
/// request is admitted if nobody else asks in between.
pub proof fn law_fixed_window(
    policy: Policy,
    start: Instant,
    times: Seq<Instant>,
    i: int,
    later: Instant,
)
    requires
        policy.strategy is FixedWindow,
        policy.window.nanos > 0,
        policy.requests > 0,
        0 <= i < times.len(),
        forall|j: int|
            0 <= j < times.len() ==> start.nanos <= (#[trigger] times[j]).nanos < start.nanos
                + policy.window.nanos,
    ensures
        ({
            let at = run(policy, fresh_entry(start), times.take(i)).1;
            let wait = at_least_one(
                whole_secs(start.nanos + policy.window.nanos - times[i].nanos),
            );
            &&& i < policy.requests ==> policy.verdict(at, times[i]) is Ok
            &&& i >= policy.requests ==> policy.verdict(at, times[i]) == Err::<(), u64>(
                wait as u64,
            ) && policy.next(at, times[i]) == at
            &&& i >= policy.requests && wait < u64::MAX && later.nanos >= times[i].nanos + wait
                * NANOS_PER_SEC ==> policy.verdict(at, later) is Ok
        }),
{
    let front = times.take(i);
    assert forall|j: int| 0 <= j < front.len() implies (#[trigger] front[j]).since(start)
        < policy.window.nanos by {
        assert(times[j].nanos < start.nanos + policy.window.nanos);
    }
    lemma_exact_count(policy, start, front);
    let at = run(policy, fresh_entry(start), front).1;
    assert(times[i].nanos < start.nanos + policy.window.nanos);
    assert(policy.rolled(at, times[i]) == at);
    if i >= policy.requests && policy.verdict(at, times[i])->Err_0 < u64::MAX && later.nanos
        >= times[i].nanos + policy.verdict(at, times[i])->Err_0 * NANOS_PER_SEC {
        law_fixed_window_wait_is_long_enough(policy, at, times[i], later);
    }
}

/// Law: a reported wait is at least one second.
pub proof fn law_wait_is_positive(policy: Policy, e: Entry, now: Instant)
    requires
        policy.verdict(e, now) is Err,
    ensures
        policy.verdict(e, now)->Err_0 >= 1,
{
}

/// Law: a sliding window admits no burst across a window boundary that a fixed one
/// would. If the previous window was full, then in the next one as many requests
/// have been admitted at most as the share of the previous window that has passed.
pub proof fn law_boundary_burst_is_smoothed(policy: Policy, e: Entry, now: Instant)
    requires
        policy.strategy is SlidingWindow,
        policy.window.nanos > 0,
        policy.admits(e, now),
        policy.rolled(e, now).prev_count == policy.requests,
    ensures
        policy.next(e, now).count * policy.window.nanos <= policy.requests * now.since(
            policy.rolled(e, now).window_start,
        ),
{
    let at = policy.rolled(e, now);
    let w = policy.window.nanos as int;
    let limit = policy.requests as int;
    let passed = now.since(at.window_start);
    let count = at.count as int;
    assert(limit * (w - passed) + (count + 1) * w <= limit * w);
    assert((count + 1) * w <= limit * passed) by (nonlinear_arith)
        requires
            limit * (w - passed) + (count + 1) * w <= limit * w,
    ;
    assert(passed < w);
    assert(limit * passed <= limit * w) by (nonlinear_arith)
        requires
            0 <= passed < w,
            limit >= 0,
    ;
    assert(count + 1 <= limit) by (nonlinear_arith)
        requires
            (count + 1) * w <= limit * w,
            w > 0,
    ;
}

/// `x` as `n` bytes, the most significant first.
pub open spec fn big_endian(x: nat, n: nat) -> Seq<u8>
    decreases n,
{
    if n == 0 {
        Seq::empty()
    } else {
        big_endian(x / 256, (n - 1) as nat).push((x % 256) as u8)
    }
}

/// Executable form of [`big_endian`].
fn bytes_of(x: u128, n: usize) -> (v: Vec<u8>)
    ensures
        v@ == big_endian(x as nat, n as nat),
    decreases n,
{
    if n == 0 {
        Vec::new()
    } else {
        let mut v = bytes_of(x / 256, n - 1);
        v.push((x % 256) as u8);
        v
    }
}

/// The octets of an address.
pub open spec fn octets(ip: IpAddr) -> Seq<u8> {
    match ip {
        IpAddr::V4(x) => big_endian(x as nat, 4),
        IpAddr::V6(x) => big_endian(x as nat, 16),
    }
}

/// The shard an address belongs to.
pub open spec fn shard_of(ip: IpAddr, shards: int) -> int {
    DefaultHasher::spec_finish(seq![octets(ip)]) as int % shards
}

/// The shard an address belongs to. The spread of the hash affects only how often
/// two clients share a shard, never a decision.
pub fn shard_index(ip: IpAddr, shards: usize) -> (i: usize)
    requires
        0 < shards,
    ensures
        i == shard_of(ip, shards as int),
        i < shards,
{
    let bytes = match ip {
        IpAddr::V4(x) => bytes_of(x as u128, 4),
        IpAddr::V6(x) => bytes_of(x, 16),
    };
    let mut hasher = DefaultHasher::new();
    hasher.write(bytes.as_slice());
    assert(hasher@ =~= seq![octets(ip)]);
    (hasher.finish() % shards as u64) as usize
}

/// The buckets of the clients that belong to one shard.
pub struct Shard {
    v4: HashMap<u32, Entry>,
    v6: HashMap<u128, Entry>,
}

/// What a map holds under a key.
pub open spec fn found<K>(m: Map<K, Entry>, key: K) -> Option<Entry> {
    if m.dom().contains(key) {
        Some(m[key])
    } else {
        None
    }
}

impl Shard {
    /// The bucket of a client, if it has one.
    pub closed spec fn bucket(self, ip: IpAddr) -> Option<Entry> {
        match ip {
            IpAddr::V4(x) => found(self.v4@, x),
            IpAddr::V6(x) => found(self.v6@, x),
        }
    }

    /// The number of buckets.
    pub closed spec fn size(self) -> nat {
        self.v4@.len() + self.v6@.len()
    }

    /// A shard without buckets.
    pub fn new() -> (s: Shard)
        ensures
            forall|ip: IpAddr| #[trigger] s.bucket(ip) is None,
            s.size() == 0,
    {
        Shard { v4: HashMap::new(), v6: HashMap::new() }
    }

    /// The number of buckets, as far as a `usize` can count them.
    pub fn len(&self) -> (n: usize)
        ensures
            n == if self.size() > usize::MAX {
                usize::MAX as nat
            } else {
                self.size()
            },
    {
        self.v4.len().saturating_add(self.v6.len())
    }

    /// Set the bucket of a client.
    fn put(&mut self, ip: IpAddr, e: Entry)
        ensures
            final(self).bucket(ip) == Some(e),
            forall|other: IpAddr|
                other != ip ==> #[trigger] final(self).bucket(other) == old(self).bucket(other),
            final(self).size() == old(self).size() + if old(self).bucket(ip) is None {
                1int
            } else {
                0
            },
    {
        match ip {
            IpAddr::V4(x) => {
                self.v4.insert(x, e);
            },
            IpAddr::V6(x) => {
                self.v6.insert(x, e);
            },
        }
    }

    /// The bucket of a client, or a fresh one.
    fn get_or_new(&self, ip: IpAddr, now: Instant) -> (e: Entry)
        ensures
            e == (match self.bucket(ip) {
                Some(held) => held,
                None => fresh_entry(now),
            }),
    {
        match ip {
            IpAddr::V4(x) => match self.v4.get(&x) {
                Some(e) => *e,
                None => Entry::new(now),
            },
            IpAddr::V6(x) => match self.v6.get(&x) {
                Some(e) => *e,
                None => Entry::new(now),
            },
        }
    }
}

/// Whether every bucket of a shard is one the policy can use.
pub open spec fn shard_holds(policy: Policy, s: Shard) -> bool {
    forall|ip: IpAddr| #[trigger] s.bucket(ip) is Some ==> policy.holds(s.bucket(ip)->0)
}

/// The bucket a request of a client meets.
pub open spec fn met(held: Option<Entry>, now: Instant) -> Entry {
    match held {
        Some(e) => e,
        None => fresh_entry(now),
    }
}

impl Policy {
    /// Admit or reject one request of a client whose shard this is. No other
    /// client's bucket is touched.
    pub fn check_in(&self, shard: &mut Shard, now: Instant, ip: IpAddr) -> (r: Result<(), u64>)
        requires
            shard_holds(*self, *old(shard)),
        ensures
            r == self.verdict(met(old(shard).bucket(ip), now), now),
            final(shard).bucket(ip) == Some(self.next(met(old(shard).bucket(ip), now), now)),
            forall|other: IpAddr|
                other != ip ==> #[trigger] final(shard).bucket(other) == old(shard).bucket(other),
            final(shard).size() == old(shard).size() + if old(shard).bucket(ip) is None {
                1int
            } else {
                0
            },
            shard_holds(*self, *final(shard)),
    {
        let mut e = shard.get_or_new(ip, now);
        let r = self.decide(&mut e, now);
        shard.put(ip, e);
        assert forall|other: IpAddr| #[trigger] shard.bucket(other) is Some implies self.holds(
            shard.bucket(other)->0,
        ) by {
            if other != ip {
                assert(old(shard).bucket(other) is Some);
            }
        }
        r
    }
}

/// A copy of a map without its idle buckets.
fn swept<K: Copy + Eq + std::hash::Hash>(
    m: &HashMap<K, Entry>,
    policy: &Policy,
    now: Instant,
) -> (kept: HashMap<K, Entry>)
    requires
        obeys_key_model::<K>(),
    ensures
        forall|k: K|
            #[trigger] found(kept@, k) == (if found(m@, k) is Some && !policy.idle(
                found(m@, k)->0,
                now,
            ) {
                found(m@, k)
            } else {
                None
            }),
        kept@.len() <= m@.len(),
{
    let ghost all = vstd::std_specs::iter::IteratorSpec::remaining(&spec_hash_map_iter(m));
    let mut kept: HashMap<K, Entry> = HashMap::new();
    for kv in it: m.iter()
        invariant
            obeys_key_model::<K>(),
            all == vstd::std_specs::iter::IteratorSpec::remaining(&spec_hash_map_iter(m)),
            it.seq() == all,
            forall|k: K| #[trigger]
                kept@.contains_key(k) ==> m@.contains_key(k) && kept@[k] == m@[k] && !policy.idle(
                    m@[k],
                    now,
                ),
            forall|i: int|
                0 <= i < it.index() && !policy.idle(*(#[trigger] all[i]).1, now)
                    ==> kept@.contains_key(*all[i].0),
    {
        let ghost at = it.index();
        assert(kv == all[at]);
        assert(m@.contains_key(*all[at].0));
        if !policy.is_idle(kv.1, now) {
            kept.insert(*kv.0, *kv.1);
        }
    }
    assert forall|k: K| #[trigger] found(kept@, k) == (if found(m@, k) is Some && !policy.idle(
        found(m@, k)->0,
        now,
    ) {
        found(m@, k)
    } else {
        None
    }) by {
        if m@.contains_key(k) && !policy.idle(m@[k], now) {
            assert(all.contains((&k, &m@[k])));
            let i = choose|i: int| 0 <= i < all.len() && all[i] == (&k, &m@[k]);
            assert(kept@.contains_key(*all[i].0));
        }
    }
    proof {
        assert(kept@.dom().subset_of(m@.dom()));
        vstd::set_lib::lemma_len_subset(kept@.dom(), m@.dom());
    }
    kept
}

impl Shard {
    /// Drop the idle buckets, and no others.
    pub fn sweep(&mut self, policy: &Policy, now: Instant)
        ensures
            forall|ip: IpAddr|
                #[trigger] final(self).bucket(ip) == (if old(self).bucket(ip) is Some
                    && !policy.idle(old(self).bucket(ip)->0, now) {
                    old(self).bucket(ip)
                } else {
                    None
                }),
            final(self).size() <= old(self).size(),
            (forall|ip: IpAddr| #[trigger] final(self).bucket(ip) is None) ==> final(self).size()
                == 0,
    {
        self.v4 = swept(&self.v4, policy, now);
        self.v6 = swept(&self.v6, policy, now);
        proof {
            if forall|ip: IpAddr| #[trigger] self.bucket(ip) is None {
                assert forall|x: u32| !self.v4@.dom().contains(x) by {
                    assert(self.bucket(IpAddr::V4(x)) is None);
                }
                assert forall|x: u128| !self.v6@.dom().contains(x) by {
                    assert(self.bucket(IpAddr::V6(x)) is None);
                }
                assert(self.v4@.dom() =~= Set::<u32>::empty());
                assert(self.v6@.dom() =~= Set::<u128>::empty());
            }
        }
    }
}

/// Where a route's buckets live.
pub enum Store {
    /// One bucket per client, spread over shards.
    PerIp { shards: Vec<Shard> },
    /// One bucket for every client of the route.
    Global { bucket: Entry },
}

/// The limiter of one route: its policy and its buckets.
pub struct RouteLimiter {
    pub policy: Policy,
    pub store: Store,
}

/// Whether a route's limiter uses one bucket per client.
pub open spec fn scope(store: Store) -> Per {
    match store {
        Store::PerIp { .. } => Per::Ip,
        Store::Global { .. } => Per::Global,
    }
}

/// Whether every bucket stands in the shard of its client.
pub open spec fn in_place(shards: Seq<Shard>) -> bool {
    forall|i: int, ip: IpAddr|
        0 <= i < shards.len() && #[trigger] shards[i].bucket(ip) is Some ==> shard_of(
            ip,
            shards.len() as int,
        ) == i
}

/// Whether `after` is the limiter after one request of a client.
pub open spec fn limiter_moved(
    before: Option<RouteLimiter>,
    after: Option<RouteLimiter>,
    ip: IpAddr,
    now: Instant,
) -> bool {
    match before {
        None => after is None,
        Some(l) => {
            &&& after is Some
            &&& after->0.valid()
            &&& after->0.policy == l.policy
            &&& scope(after->0.store) == scope(l.store)
            &&& after->0.bucket(ip) == Some(l.policy.next(met(l.bucket(ip), now), now))
            &&& scope(l.store) is Ip ==> forall|other: IpAddr|
                other != ip ==> #[trigger] after->0.bucket(other) == l.bucket(other)
        },
    }
}

/// The policy of a configured limit.
pub open spec fn policy_of(rl: RateLimit) -> Policy {
    Policy { requests: rl.requests, window: rl.window, strategy: rl.strategy }
}

impl RouteLimiter {
    /// The bucket a client's requests are counted in, if there is one yet.
    pub open spec fn bucket(self, ip: IpAddr) -> Option<Entry> {
        match self.store {
            Store::Global { bucket } => Some(bucket),
            Store::PerIp { shards } => shards@[shard_of(ip, shards@.len() as int)].bucket(ip),
        }
    }

    /// The invariant: there is a shard for every client, every bucket stands in the
    /// shard of its client, and it is one the policy can use.
    pub open spec fn valid(self) -> bool {
        match self.store {
            Store::Global { bucket } => self.policy.holds(bucket),
            Store::PerIp { shards } => {
                &&& shards@.len() > 0
                &&& forall|i: int|
                    0 <= i < shards@.len() ==> shard_holds(self.policy, #[trigger] shards@[i])
                &&& in_place(shards@)
            },
        }
    }

    /// What a request of a client is told.
    pub open spec fn told(self, now: Instant, ip: IpAddr) -> Result<(), u64> {
        self.policy.verdict(met(self.bucket(ip), now), now)
    }

    /// The number of buckets.
    pub open spec fn size(self) -> nat {
        match self.store {
            Store::Global { .. } => 1,
            Store::PerIp { shards } => shards_size(shards@, shards@.len() as int),
        }
    }

    /// A limiter that has counted nothing.
    pub fn new(rl: &RateLimit, now: Instant) -> (l: RouteLimiter)
        ensures
            l.valid(),
            l.policy == policy_of(*rl),
            scope(l.store) == rl.per,
            forall|ip: IpAddr| #[trigger]
                l.bucket(ip) == (if rl.per is Global {
                    Some(fresh_entry(now))
                } else {
                    None
                }),
            l.size() == if rl.per is Global {
                1nat
            } else {
                0
            },
    {
        let policy = Policy { requests: rl.requests, window: rl.window, strategy: rl.strategy };
        let store = match rl.per {
            Per::Global => Store::Global { bucket: Entry::new(now) },
            Per::Ip => {
                let mut shards: Vec<Shard> = Vec::new();
                let mut i: usize = 0;
                while i < SHARDS
                    invariant
                        i <= SHARDS,
                        shards@.len() == i,
                        forall|j: int| 0 <= j < i ==> shard_holds(policy, #[trigger] shards@[j]),
                        forall|j: int, ip: IpAddr|
                            0 <= j < i ==> (#[trigger] shards@[j].bucket(ip)) is None,
                        shards_size(shards@, i as int) == 0,
                    decreases SHARDS - i,
                {
                    let ghost before = shards@;
                    shards.push(Shard::new());
                    proof {
                        lemma_shards_size_prefix(before, shards@, i as int);
                    }
                    i += 1;
                }
                Store::PerIp { shards }
            },
        };
        let l = RouteLimiter { policy, store };
        proof {
            if rl.per is Ip {
                let shards = l.store->shards@;
                assert forall|ip: IpAddr| #[trigger] l.bucket(ip) is None by {
                    let at = shard_of(ip, shards.len() as int);
                    vstd::arithmetic::div_mod::lemma_mod_bound(
                        DefaultHasher::spec_finish(seq![octets(ip)]) as int,
                        shards.len() as int,
                    );
                    assert(shards[at].bucket(ip) is None);
                }
            }
        }
        l
    }

    /// Admit or reject one request of a client. Under `per: ip` every client has a
    /// bucket of its own; under `per: global` all clients share one.
    pub fn check(&mut self, now: Instant, ip: IpAddr) -> (r: Result<(), u64>)
        requires
            old(self).valid(),
        ensures
            final(self).valid(),
            r == old(self).told(now, ip),
            limiter_moved(Some(*old(self)), Some(*final(self)), ip, now),
            final(self).size() == old(self).size() + if old(self).bucket(ip) is None {
                1int
            } else {
                0
            },
    {
        let policy = self.policy;
        match &mut self.store {
            Store::Global { bucket } => policy.decide(bucket, now),
            Store::PerIp { shards } => {
                let i: usize = shard_index(ip, shards.len());
                let ghost before = shards@;
                assert(shard_holds(policy, shards@[i as int]));
                let r = policy.check_in(&mut shards[i], now, ip);
                proof {
                    assert forall|j: int, other: IpAddr|
                        0 <= j < shards@.len() && #[trigger] shards@[j].bucket(other)
                            is Some implies shard_of(other, shards@.len() as int) == j by {
                        if j == i && other != ip {
                            assert(before[j].bucket(other) is Some);
                        }
                        if j != i {
                            assert(shards@[j] == before[j]);
                        }
                    }
                    lemma_shards_size_update(before, i as int, shards@[i as int], before.len() as int);
                    assert(shards@ =~= before.update(i as int, shards@[i as int]));
                }
                r
            },
        }
    }

    /// Drop idle buckets. The one bucket of `per: global` stays.
    pub fn sweep(&mut self, now: Instant)
        requires
            old(self).valid(),
        ensures
            final(self).valid(),
            final(self).policy == old(self).policy,
            scope(final(self).store) == scope(old(self).store),
            forall|ip: IpAddr|
                #[trigger] final(self).bucket(ip) == (if scope(old(self).store) is Ip && old(self).bucket(ip) is Some && old(self).policy.idle(old(self).bucket(ip)->0, now) {
                    None
                } else {
                    old(self).bucket(ip)
                }),
            final(self).size() <= old(self).size(),
            scope(old(self).store) is Ip && (forall|ip: IpAddr| #[trigger]
                final(self).bucket(ip) is None) ==> final(self).size() == 0,
    {
        let policy = self.policy;
        match &mut self.store {
            Store::Global { .. } => {},
            Store::PerIp { shards } => {
                sweep_shards(shards, &policy, now);
            },
        }
        proof {
            if scope(old(self).store) is Ip {
                let n = old(self).store->shards@.len() as int;
                let swept = self.store->shards@;
                assert forall|i: int, ip: IpAddr|
                    0 <= i < n && #[trigger] swept[i].bucket(ip) is Some implies shard_of(ip, n)
                    == i by {
                    assert(is_swept(old(self).store->shards@[i], swept[i], policy, now));
                    assert(old(self).store->shards@[i].bucket(ip) is Some);
                }
                if forall|ip: IpAddr| #[trigger] self.bucket(ip) is None {
                    assert forall|i: int| 0 <= i < n implies (#[trigger] swept[i]).size() == 0 by {
                        assert(empty_is_zero(swept[i]));
                        assert forall|ip: IpAddr| #[trigger] swept[i].bucket(ip) is None by {
                            if swept[i].bucket(ip) is Some {
                                assert(shard_of(ip, n) == i);
                                assert(self.bucket(ip) is None);
                            }
                        }
                    }
                    lemma_shards_size_zero(swept, n);
                }
                lemma_shards_size_at_most(self.store->shards@, old(self).store->shards@, n);
                assert forall|ip: IpAddr|
                    #[trigger] self.bucket(ip) == (if old(self).bucket(ip) is Some
                        && policy.idle(old(self).bucket(ip)->0, now) {
                        None
                    } else {
                        old(self).bucket(ip)
                    }) by {
                    vstd::arithmetic::div_mod::lemma_mod_bound(
                        DefaultHasher::spec_finish(seq![octets(ip)]) as int,
                        n,
                    );
                    let at = shard_of(ip, n);
                    assert(is_swept(
                        old(self).store->shards@[at],
                        self.store->shards@[at],
                        policy,
                        now,
                    ));
                    assert(self.store->shards@[at].bucket(ip) == self.bucket(ip));
                }
            }
        }
    }

    /// Take a limiter apart into limiters that can be held one by one: one for each
    /// shard, or one for the one bucket of all clients. The requests of a client go
    /// to the part with the index [`shard_index`] gives for the number of parts.
    pub fn into_parts(self) -> (parts: Vec<RouteLimiter>)
        requires
            self.valid(),
        ensures
            parts@.len() == (match self.store {
                Store::PerIp { shards } => shards@.len(),
                Store::Global { .. } => 1,
            }),
            forall|i: int|
                0 <= i < parts@.len() ==> (#[trigger] parts@[i]).valid() && parts@[i].policy
                    == self.policy && scope(parts@[i].store) == scope(self.store),
            forall|ip: IpAddr| #[trigger]
                parts@[shard_of(ip, parts@.len() as int)].bucket(ip) == self.bucket(ip),
    {
        let policy = self.policy;
        let mut parts: Vec<RouteLimiter> = Vec::new();
        match self.store {
            Store::Global { bucket } => {
                parts.push(RouteLimiter { policy, store: Store::Global { bucket } });
                proof {
                    assert forall|ip: IpAddr| shard_of(ip, 1) == 0 by {
                        lemma_one_shard(ip);
                    }
                }
            },
            Store::PerIp { shards } => {
                let ghost all = shards@;
                let mut shards = shards;
                while shards.len() > 0
                    invariant
                        shards@.len() + parts@.len() == all.len(),
                        shards@ == all.take(shards@.len() as int),
                        forall|i: int|
                            0 <= i < all.len() ==> shard_holds(policy, #[trigger] all[i]),
                        forall|j: int|
                            0 <= j < parts@.len() ==> is_part(
                                policy,
                                all[shards@.len() + j],
                                #[trigger] parts@[j],
                            ),
                    decreases shards@.len(),
                {
                    let ghost n = shards@.len() as int;
                    match shards.pop() {
                        Some(shard) => {
                            let mut one: Vec<Shard> = Vec::new();
                            one.push(shard);
                            let ghost before = parts@;
                            parts.insert(
                                0,
                                RouteLimiter { policy, store: Store::PerIp { shards: one } },
                            );
                            proof {
                                assert(shards@ =~= all.take(n - 1));
                                assert(one@ =~= seq![shard]);
                                assert forall|j: int| 0 <= j < parts@.len() implies is_part(
                                    policy,
                                    all[n - 1 + j],
                                    #[trigger] parts@[j],
                                ) by {
                                    if j > 0 {
                                        assert(parts@[j] == before[j - 1]);
                                        assert(is_part(policy, all[n + (j - 1)], before[j - 1]));
                                    }
                                }
                            }
                        },
                        None => {},
                    }
                }
                proof {
                    assert forall|i: int| 0 <= i < parts@.len() implies is_part(
                        policy,
                        all[i],
                        #[trigger] parts@[i],
                    ) by {
                        assert(all[shards@.len() + i] == all[i]);
                    }
                    assert forall|i: int| 0 <= i < parts@.len() implies (
                    #[trigger] parts@[i]).valid() by {
                        assert(is_part(policy, all[i], parts@[i]));
                        assert(shard_holds(policy, all[i]));
                        let one = parts@[i].store->shards@;
                        assert forall|j: int, ip: IpAddr|
                            0 <= j < one.len() && #[trigger] one[j].bucket(ip) is Some implies shard_of(
                            ip,
                            one.len() as int,
                        ) == j by {
                            lemma_one_shard(ip);
                        }
                    }
                    assert forall|ip: IpAddr| #[trigger]
                        parts@[shard_of(ip, parts@.len() as int)].bucket(ip) == self.bucket(ip) by {
                        let at = shard_of(ip, parts@.len() as int);
                        vstd::arithmetic::div_mod::lemma_mod_bound(
                            DefaultHasher::spec_finish(seq![octets(ip)]) as int,
                            parts@.len() as int,
                        );
                        assert(is_part(policy, all[at], parts@[at]));
                        lemma_one_shard(ip);
                    }
                }
            },
        }
        parts
    }

    /// The number of buckets, as far as a `usize` can count them.
    pub fn entry_count(&self) -> (n: usize)
        ensures
            n == if self.size() > usize::MAX {
                usize::MAX as nat
            } else {
                self.size()
            },
    {
        match &self.store {
            Store::Global { .. } => 1,
            Store::PerIp { shards } => {
                let mut n: usize = 0;
                let mut i: usize = 0;
                while i < shards.len()
                    invariant
                        i <= shards@.len(),
                        n == if shards_size(shards@, i as int) > usize::MAX {
                            usize::MAX as nat
                        } else {
                            shards_size(shards@, i as int)
                        },
                    decreases shards@.len() - i,
                {
                    n = n.saturating_add(shards[i].len());
                    i += 1;
                }
                n
            },
        }
    }
}

/// Whether `part` is the limiter of that one shard.
spec fn is_part(policy: Policy, shard: Shard, part: RouteLimiter) -> bool {
    &&& part.policy == policy
    &&& part.store matches Store::PerIp { shards }
    &&& shards@ == seq![shard]
}

/// With one shard every client belongs to it.
proof fn lemma_one_shard(ip: IpAddr)
    ensures
        shard_of(ip, 1) == 0,
{
    vstd::arithmetic::div_mod::lemma_mod_bound(
        DefaultHasher::spec_finish(seq![octets(ip)]) as int,
        1,
    );
}

/// The number of buckets in the first `k` shards.
pub open spec fn shards_size(shards: Seq<Shard>, k: int) -> nat
    decreases k,
{
    if k <= 0 {
        0
    } else {
        shards_size(shards, k - 1) + shards[k - 1].size()
    }
}

proof fn lemma_shards_size_update(shards: Seq<Shard>, i: int, s: Shard, k: int)
    requires
        0 <= i < shards.len(),
        0 <= k <= shards.len(),
    ensures
        shards_size(shards.update(i, s), k) == shards_size(shards, k) + if i < k {
            s.size() - shards[i].size()
        } else {
            0
        },
    decreases k,
{
    if k > 0 {
        lemma_shards_size_update(shards, i, s, k - 1);
    }
}

proof fn lemma_shards_size_zero(shards: Seq<Shard>, k: int)
    requires
        0 <= k <= shards.len(),
        forall|j: int| 0 <= j < k ==> (#[trigger] shards[j]).size() == 0,
    ensures
        shards_size(shards, k) == 0,
    decreases k,
{
    if k > 0 {
        lemma_shards_size_zero(shards, k - 1);
        assert(shards[k - 1].size() == 0);
    }
}

proof fn lemma_shards_size_at_most(a: Seq<Shard>, b: Seq<Shard>, k: int)
    requires
        0 <= k <= a.len(),
        k <= b.len(),
        forall|j: int| 0 <= j < k ==> a[j].size() <= (#[trigger] b[j]).size(),
    ensures
        shards_size(a, k) <= shards_size(b, k),
    decreases k,
{
    if k > 0 {
        lemma_shards_size_at_most(a, b, k - 1);
        assert(a[k - 1].size() <= b[k - 1].size());
    }
}

proof fn lemma_shards_size_prefix(a: Seq<Shard>, b: Seq<Shard>, k: int)
    requires
        0 <= k <= a.len(),
        k <= b.len(),
        forall|j: int| 0 <= j < k ==> a[j] == #[trigger] b[j],
    ensures
        shards_size(a, k) == shards_size(b, k),
    decreases k,
{
    if k > 0 {
        lemma_shards_size_prefix(a, b, k - 1);
        assert(a[k - 1] == b[k - 1]);
    }
}

/// Whether `after` is `before` without its idle buckets.
pub open spec fn is_swept(before: Shard, after: Shard, policy: Policy, now: Instant) -> bool {
    forall|ip: IpAddr|
        #[trigger] after.bucket(ip) == (if before.bucket(ip) is Some && !policy.idle(
            before.bucket(ip)->0,
            now,
        ) {
            before.bucket(ip)
        } else {
            None
        })
}

/// Whether a shard in which no client has a bucket counts none.
spec fn empty_is_zero(s: Shard) -> bool {
    (forall|ip: IpAddr| #[trigger] s.bucket(ip) is None) ==> s.size() == 0
}

/// Drop the idle buckets of every shard.
fn sweep_shards(shards: &mut Vec<Shard>, policy: &Policy, now: Instant)
    requires
        forall|i: int|
            0 <= i < old(shards)@.len() ==> shard_holds(*policy, #[trigger] old(shards)@[i]),
    ensures
        final(shards)@.len() == old(shards)@.len(),
        forall|i: int|
            0 <= i < final(shards)@.len() ==> is_swept(
                old(shards)@[i],
                #[trigger] final(shards)@[i],
                *policy,
                now,
            ),
        forall|i: int|
            0 <= i < final(shards)@.len() ==> shard_holds(*policy, #[trigger] final(shards)@[i]),
        forall|i: int|
            0 <= i < final(shards)@.len() ==> final(shards)@[i].size() <= (#[trigger] old(shards)@[i]).size(),
        forall|i: int|
            0 <= i < final(shards)@.len() ==> empty_is_zero(#[trigger] final(shards)@[i]),
{
    let ghost start = shards@;
    let mut i: usize = 0;
    while i < shards.len()
        invariant
            i <= shards@.len(),
            shards@.len() == start.len(),
            forall|j: int| 0 <= j < start.len() ==> shard_holds(*policy, #[trigger] start[j]),
            forall|j: int| i <= j < start.len() ==> #[trigger] shards@[j] == start[j],
            forall|j: int|
                0 <= j < i ==> is_swept(start[j], #[trigger] shards@[j], *policy, now),
            forall|j: int| 0 <= j < i ==> shards@[j].size() <= (#[trigger] start[j]).size(),
            forall|j: int| 0 <= j < i ==> empty_is_zero(#[trigger] shards@[j]),
        decreases shards@.len() - i,
    {
        assert(shards@[i as int] == start[i as int]);
        shards[i].sweep(policy, now);
        i += 1;
    }
    assert forall|j: int| 0 <= j < shards@.len() implies shard_holds(
        *policy,
        #[trigger] shards@[j],
    ) by {
        assert(is_swept(start[j], shards@[j], *policy, now));
        assert(shard_holds(*policy, start[j]));
        assert forall|ip: IpAddr| #[trigger] shards@[j].bucket(ip) is Some implies policy.holds(
            shards@[j].bucket(ip)->0,
        ) by {
            assert(start[j].bucket(ip) is Some);
        }
    }
}

/// The limit that holds for a route: its own `rate_limit` replaces the gateway's
/// and is never merged with it; with neither the route is unlimited.
pub open spec fn limit_of(route: Route, config: Config) -> Option<RateLimit> {
    if route.rate_limit is Some {
        route.rate_limit
    } else {
        config.gateway.global_rate_limit
    }
}

/// Executable form of [`limit_of`]: the one place that says whether a route has a
/// limit, used both to build its limiter and to decide whether to consult it.
pub fn effective_rate_limit<'a>(route: &'a Route, config: &'a Config) -> (rl: Option<&'a RateLimit>)
    ensures
        rl is Some == limit_of(*route, *config) is Some,
        rl is Some ==> *rl->0 == limit_of(*route, *config)->0,
{
    match &route.rate_limit {
        Some(rl) => Some(rl),
        None => match &config.gateway.global_rate_limit {
            Some(rl) => Some(rl),
            None => None,
        },
    }
}

/// The stage that enforces a route's limit. The counters live in the route's
/// [`RouteLimiter`]; the stage is in a chain only if the route has a limit.
pub struct RateLimitStage;

/// The limiters of all routes, in the order of the configured routes. `None` is a
/// route without a limit.
pub struct RateLimiterRegistry {
    pub limiters: Vec<Option<RouteLimiter>>,
}

impl RateLimiterRegistry {
    /// The invariant: that of every limiter.
    pub open spec fn valid(self) -> bool {
        forall|i: int|
            0 <= i < self.limiters@.len() ==> (#[trigger] self.limiters@[i] is Some
                ==> self.limiters@[i]->0.valid())
    }

    /// The limiter of a route, if it has one.
    pub open spec fn limiter(self, route_index: int) -> Option<RouteLimiter> {
        if 0 <= route_index < self.limiters@.len() {
            self.limiters@[route_index]
        } else {
            None
        }
    }

    /// Build one limiter per route from its effective limit. The gateway's default
    /// is made anew for every route: routes never share a budget.
    pub fn build(config: &Config, now: Instant) -> (r: RateLimiterRegistry)
        ensures
            r.valid(),
            r.limiters@.len() == config.routes@.len(),
            forall|i: int|
                0 <= i < config.routes@.len() ==> is_fresh_limiter(
                    limit_of(#[trigger] config.routes@[i], *config),
                    r.limiters@[i],
                    now,
                ),
    {
        let mut limiters: Vec<Option<RouteLimiter>> = Vec::new();
        let mut i: usize = 0;
        while i < config.routes.len()
            invariant
                i <= config.routes@.len(),
                limiters@.len() == i,
                forall|j: int|
                    0 <= j < i ==> (#[trigger] limiters@[j] is Some ==> limiters@[j]->0.valid()),
                forall|j: int|
                    0 <= j < i ==> is_fresh_limiter(
                        limit_of(#[trigger] config.routes@[j], *config),
                        limiters@[j],
                        now,
                    ),
            decreases config.routes@.len() - i,
        {
            let limiter = match effective_rate_limit(&config.routes[i], config) {
                Some(rl) => Some(RouteLimiter::new(rl, now)),
                None => None,
            };
            limiters.push(limiter);
            i += 1;
        }
        RateLimiterRegistry { limiters }
    }

    /// Admit or reject a request of a client for a route. A route without a limit,
    /// or one that does not exist, always admits.
    pub fn check(&mut self, route_index: usize, client_ip: IpAddr, now: Instant) -> (r: Result<
        (),
        u64,
    >)
        requires
            old(self).valid(),
        ensures
            final(self).valid(),
            final(self).limiters@.len() == old(self).limiters@.len(),
            forall|j: int|
                0 <= j < old(self).limiters@.len() && j != route_index ==> #[trigger] final(self).limiters@[j] == old(self).limiters@[j],
            match old(self).limiter(route_index as int) {
                None => r is Ok && final(self).limiter(route_index as int) is None,
                Some(l) => {
                    let at = met(l.bucket(client_ip), now);
                    &&& r == l.policy.verdict(at, now)
                    &&& final(self).limiter(route_index as int) matches Some(after)
                    &&& after.policy == l.policy
                    &&& scope(after.store) == scope(l.store)
                    &&& after.bucket(client_ip) == Some(l.policy.next(at, now))
                    &&& scope(l.store) is Ip ==> forall|other: IpAddr|
                        other != client_ip ==> #[trigger] after.bucket(other) == l.bucket(other)
                },
            },
    {
        if route_index >= self.limiters.len() {
            return Ok(());
        }
        assert(self.limiters@[route_index as int] is Some
            ==> self.limiters@[route_index as int]->0.valid());
        match &mut self.limiters[route_index] {
            Some(limiter) => limiter.check(now, client_ip),
            None => Ok(()),
        }
    }

    /// Drop the idle buckets of every route.
    pub fn sweep(&mut self, now: Instant)
        requires
            old(self).valid(),
        ensures
            final(self).valid(),
            final(self).limiters@.len() == old(self).limiters@.len(),
            forall|i: int|
                0 <= i < old(self).limiters@.len() ==> limiter_swept(
                    old(self).limiters@[i],
                    #[trigger] final(self).limiters@[i],
                    now,
                ),
    {
        let ghost start = self.limiters@;
        let mut i: usize = 0;
        while i < self.limiters.len()
            invariant
                i <= self.limiters@.len(),
                self.limiters@.len() == start.len(),
                self.valid(),
                forall|j: int| i <= j < start.len() ==> #[trigger] self.limiters@[j] == start[j],
                forall|j: int|
                    0 <= j < i ==> limiter_swept(start[j], #[trigger] self.limiters@[j], now),
            decreases self.limiters@.len() - i,
        {
            assert(self.limiters@[i as int] == start[i as int]);
            assert(self.limiters@[i as int] is Some ==> self.limiters@[i as int]->0.valid());
            let ghost before = self.limiters@;
            match &mut self.limiters[i] {
                Some(limiter) => {
                    limiter.sweep(now);
                },
                None => {},
            }
            assert forall|j: int|
                0 <= j < self.limiters@.len() && #[trigger] self.limiters@[j]
                    is Some implies self.limiters@[j]->0.valid() by {
                if j != i {
                    assert(self.limiters@[j] == before[j]);
                }
            }
            i += 1;
        }
    }

    /// Whether any route has a limit: without one there is nothing to sweep.
    pub fn any_limited(&self) -> (r: bool)
        ensures
            r == exists|i: int| 0 <= i < self.limiters@.len() && #[trigger] self.limiters@[i] is Some,
    {
        let mut i: usize = 0;
        while i < self.limiters.len()
            invariant
                i <= self.limiters@.len(),
                forall|j: int| 0 <= j < i ==> #[trigger] self.limiters@[j] is None,
            decreases self.limiters@.len() - i,
        {
            if self.limiters[i].is_some() {
                return true;
            }
            i += 1;
        }
        false
    }

    /// The number of buckets of a route.
    pub fn entry_count(&self, route_index: usize) -> (n: usize)
        ensures
            n == (match self.limiter(route_index as int) {
                Some(l) => if l.size() > usize::MAX {
                    usize::MAX as nat
                } else {
                    l.size()
                },
                None => 0,
            }),
    {
        if route_index >= self.limiters.len() {
            return 0;
        }
        match &self.limiters[route_index] {
            Some(limiter) => limiter.entry_count(),
            None => 0,
        }
    }
}

/// Whether `after` is `before` without its idle buckets.
pub open spec fn limiter_swept(
    before: Option<RouteLimiter>,
    after: Option<RouteLimiter>,
    now: Instant,
) -> bool {
    match before {
        None => after is None,
        Some(l) => {
            &&& after is Some
            &&& after->0.policy == l.policy
            &&& scope(after->0.store) == scope(l.store)
            &&& forall|ip: IpAddr|
                #[trigger] after->0.bucket(ip) == (if scope(l.store) is Ip && l.bucket(ip) is Some
                    && l.policy.idle(l.bucket(ip)->0, now) {
                    None
                } else {
                    l.bucket(ip)
                })
        },
    }
}

/// Whether `built` is the limiter of a route with that limit that has counted
/// nothing.
pub open spec fn is_fresh_limiter(
    limit: Option<RateLimit>,
    built: Option<RouteLimiter>,
    now: Instant,
) -> bool {
    match limit {
        None => built is None,
        Some(rl) => {
            &&& built is Some
            &&& built->0.policy == policy_of(rl)
            &&& scope(built->0.store) == rl.per
            &&& forall|ip: IpAddr| #[trigger]
                built->0.bucket(ip) == (if rl.per is Global {
                    Some(fresh_entry(now))
                } else {
                    None
                })
            &&& built->0.size() == if rl.per is Global {
                1nat
            } else {
                0
            }
        },
    }
}

/// Law: a reported wait never tells a client to come back before there is capacity.
/// Under either strategy, a client that was rejected is admitted once the wait it was
/// told is over, if no other request is counted in its bucket in between. (A limit of
/// no requests never has capacity.)
pub proof fn law_capacity_after_the_wait(
    before: RouteLimiter,
    after: RouteLimiter,
    ip: IpAddr,
    now: Instant,
    later: Instant,
)
    requires
        before.valid(),
        before.policy.requests > 0,
        before.told(now, ip) is Err,
        before.told(now, ip)->Err_0 < u64::MAX,
        limiter_moved(Some(before), Some(after), ip, now),
        later.nanos >= now.nanos + before.told(now, ip)->Err_0 * NANOS_PER_SEC,
    ensures
        before.told(now, ip)->Err_0 >= 1,
        after.told(later, ip) is Ok,
{
    let policy = before.policy;
    let e = met(before.bucket(ip), now);
    assert(policy.holds(e)) by {
        if let Store::PerIp { shards } = before.store {
            let n = shards@.len() as int;
            vstd::arithmetic::div_mod::lemma_mod_bound(
                DefaultHasher::spec_finish(seq![octets(ip)]) as int,
                n,
            );
            assert(shard_holds(policy, shards@[shard_of(ip, n)]));
            assert(before.bucket(ip) == shards@[shard_of(ip, n)].bucket(ip));
        }
    }
    if policy.strategy is FixedWindow {
        law_fixed_window_wait_is_long_enough(policy, e, now, later);
    } else {
        assert(policy.window.nanos > 0) by {
            if policy.window.nanos == 0 {
                let at = policy.rolled(e, now);
                let left = 0 - now.since(at.window_start);
                assert(at == fresh_entry(now));
                assert(0 * left == 0 && (0 + 1) * 0 == 0 && policy.requests * 0 == 0)
                    by (nonlinear_arith);
            }
        }
        law_sliding_window_wait_is_long_enough(policy, e, now, later);
    }
}

/// A request: whose it is, and when it comes.
pub type Arrival = (IpAddr, Instant);

/// Whether `ls` are the states a limiter goes through as those requests come, one
/// before each and one after the last.
pub open spec fn is_trace(ls: Seq<RouteLimiter>, requests: Seq<Arrival>) -> bool {
    &&& ls.len() == requests.len() + 1
    &&& forall|k: int|
        0 <= k < requests.len() ==> #[trigger] limiter_moved(
            Some(ls[k]),
            Some(ls[k + 1]),
            requests[k].0,
            requests[k].1,
        )
}

/// Whether a request of `other` is counted in the same bucket as one of `ip`.
pub open spec fn shares_bucket(per: Per, ip: IpAddr, other: IpAddr) -> bool {
    per is Global || other == ip
}

/// When those of the first `k` requests came that are counted in the bucket of `ip`.
pub open spec fn times_of(requests: Seq<Arrival>, per: Per, ip: IpAddr, k: int) -> Seq<Instant>
    decreases k,
{
    if k <= 0 {
        Seq::empty()
    } else if shares_bucket(per, ip, requests[k - 1].0) {
        times_of(requests, per, ip, k - 1).push(requests[k - 1].1)
    } else {
        times_of(requests, per, ip, k - 1)
    }
}

/// How many of those requests are admitted.
pub open spec fn admitted_of(
    ls: Seq<RouteLimiter>,
    requests: Seq<Arrival>,
    per: Per,
    ip: IpAddr,
    k: int,
) -> nat
    decreases k,
{
    if k <= 0 {
        0
    } else {
        admitted_of(ls, requests, per, ip, k - 1) + if shares_bucket(per, ip, requests[k - 1].0)
            && ls[k - 1].told(requests[k - 1].1, requests[k - 1].0) is Ok {
            1nat
        } else {
            0
        }
    }
}

/// Law: the count is exact in any interleaving. Whatever requests of whatever clients
/// come in between, of those that are counted in one client's bucket and fall within
/// one window, exactly the first `requests` are admitted. The window starts with the
/// bucket, and a bucket that is not there yet starts with the first of them.
pub proof fn law_exact_count_in_any_interleaving(
    ls: Seq<RouteLimiter>,
    requests: Seq<Arrival>,
    ip: IpAddr,
    start: Instant,
)
    requires
        is_trace(ls, requests),
        ({
            let per = scope(ls[0].store);
            let times = times_of(requests, per, ip, requests.len() as int);
            &&& ls[0].policy.window.nanos > 0
            &&& ls[0].bucket(ip) == Some(fresh_entry(start)) || (ls[0].bucket(ip) is None
                && times.len() > 0 && times[0] == start)
            &&& forall|j: int|
                0 <= j < times.len() ==> (#[trigger] times[j]).since(start)
                    < ls[0].policy.window.nanos
        }),
    ensures
        ({
            let per = scope(ls[0].store);
            let n = times_of(requests, per, ip, requests.len() as int).len();
            admitted_of(ls, requests, per, ip, requests.len() as int) == if n
                <= ls[0].policy.requests {
                n
            } else {
                ls[0].policy.requests as nat
            }
        }),
{
    let per = scope(ls[0].store);
    let n = requests.len() as int;
    lemma_trace(ls, requests, ip, start, n);
    law_exact_count(ls[0].policy, start, times_of(requests, per, ip, n));
}

/// The earlier requests counted in a bucket are a beginning of all of them.
proof fn lemma_times_of(requests: Seq<Arrival>, per: Per, ip: IpAddr, k: int, n: int)
    requires
        0 <= k <= n,
    ensures
        times_of(requests, per, ip, k).len() <= times_of(requests, per, ip, n).len(),
        forall|j: int|
            0 <= j < times_of(requests, per, ip, k).len() ==> #[trigger] times_of(
                requests,
                per,
                ip,
                k,
            )[j] == times_of(requests, per, ip, n)[j],
    decreases n - k,
{
    if k < n {
        lemma_times_of(requests, per, ip, k, n - 1);
    }
}

/// A client's bucket goes through what its own requests make of it.
proof fn lemma_trace(
    ls: Seq<RouteLimiter>,
    requests: Seq<Arrival>,
    ip: IpAddr,
    start: Instant,
    k: int,
)
    requires
        is_trace(ls, requests),
        0 <= k <= requests.len(),
        ({
            let times = times_of(requests, scope(ls[0].store), ip, requests.len() as int);
            ls[0].bucket(ip) == Some(fresh_entry(start)) || (ls[0].bucket(ip) is None
                && times.len() > 0 && times[0] == start)
        }),
    ensures
        ls[k].policy == ls[0].policy,
        scope(ls[k].store) == scope(ls[0].store),
        ({
            let per = scope(ls[0].store);
            let times = times_of(requests, per, ip, k);
            let (admitted, at) = run(ls[0].policy, fresh_entry(start), times);
            &&& admitted_of(ls, requests, per, ip, k) == admitted
            &&& ls[k].bucket(ip) == if times.len() == 0 {
                ls[0].bucket(ip)
            } else {
                Some(at)
            }
        }),
    decreases k,
{
    if k > 0 {
        lemma_trace(ls, requests, ip, start, k - 1);
        let per = scope(ls[0].store);
        let (who, now) = requests[k - 1];
        assert(limiter_moved(Some(ls[k - 1]), Some(ls[k - 1 + 1]), who, now));
        let before = times_of(requests, per, ip, k - 1);
        let times = times_of(requests, per, ip, k);
        if shares_bucket(per, ip, who) {
            assert(ls[k - 1].bucket(who) == ls[k - 1].bucket(ip));
            assert(ls[k].bucket(who) == ls[k].bucket(ip));
            assert(times.drop_last() =~= before);
            lemma_times_of(requests, per, ip, k, requests.len() as int);
            if before.len() == 0 && ls[0].bucket(ip) is None {
                assert(times[0] == start);
                assert(now == start);
            }
        }
    }
}

/// Law: a route's own limit fully replaces the gateway's.
pub proof fn law_route_limit_overrides(route: Route, config: Config, rl: RateLimit)
    requires
        route.rate_limit == Some(rl),
    ensures
        limit_of(route, config) == Some(rl),
{
}

/// What requests in the window after the one of a bucket make of it.
proof fn lemma_second_window(policy: Policy, e: Entry, times: Seq<Instant>)
    requires
        policy.strategy is SlidingWindow,
        policy.window.nanos > 0,
        policy.holds(e),
        forall|i: int|
            0 <= i < times.len() ==> e.window_start.nanos + policy.window.nanos <= (
            #[trigger] times[i]).nanos < e.window_start.nanos + 2 * policy.window.nanos,
    ensures
        ({
            let (admitted, at) = run(policy, e, times);
            &&& times.len() == 0 ==> admitted == 0 && at == e
            &&& times.len() > 0 ==> at.window_start.nanos == e.window_start.nanos
                + policy.window.nanos && at.count == admitted && at.prev_count == e.count
            &&& admitted <= policy.requests
        }),
    decreases times.len(),
{
    if times.len() > 0 {
        let front = times.drop_last();
        assert forall|i: int| 0 <= i < front.len() implies e.window_start.nanos
            + policy.window.nanos <= (#[trigger] front[i]).nanos < e.window_start.nanos + 2
            * policy.window.nanos by {
            assert(times[i] == front[i]);
        }
        lemma_second_window(policy, e, front);
        let (before, at) = run(policy, e, front);
        let now = times.last();
        assert(times[times.len() - 1] == now);
        let then = policy.rolled(at, now);
        assert(then.window_start.nanos == e.window_start.nanos + policy.window.nanos);
        assert(then.count == before && then.prev_count == e.count);
        let w = policy.window.nanos as int;
        let limit = policy.requests as int;
        let left = w - now.since(then.window_start);
        let prev = then.prev_count as int;
        if policy.admits(at, now) {
            assert(before + 1 <= limit) by (nonlinear_arith)
                requires
                    prev * left + (before + 1) * w <= limit * w,
                    prev >= 0,
                    left >= 0,
                    w > 0,
            ;
        }
    }
}

/// Law: how a sliding window slides. If `first` were admitted in one window and
/// `second` were already in the next, then at `x` into that next one a request is
/// admitted exactly if the first, in the proportion in which their window still
/// counts, and the second and this one together are no more than the limit.
pub proof fn law_sliding_window_weighs_the_previous(
    policy: Policy,
    start: Instant,
    first: Seq<Instant>,
    second: Seq<Instant>,
    now: Instant,
)
    requires
        policy.strategy is SlidingWindow,
        policy.window.nanos > 0,
        forall|i: int|
            0 <= i < first.len() ==> start.nanos <= (#[trigger] first[i]).nanos < start.nanos
                + policy.window.nanos,
        forall|i: int|
            0 <= i < second.len() ==> start.nanos + policy.window.nanos <= (
            #[trigger] second[i]).nanos < start.nanos + 2 * policy.window.nanos,
        start.nanos + policy.window.nanos <= now.nanos < start.nanos + 2 * policy.window.nanos,
    ensures
        ({
            let (n, at) = run(policy, fresh_entry(start), first);
            let (k, then) = run(policy, at, second);
            let w = policy.window.nanos as int;
            let x = now.nanos - start.nanos - w;
            policy.verdict(then, now) is Ok <==> n * (w - x) + (k + 1) * w <= policy.requests * w
        }),
{
    assert forall|i: int| 0 <= i < first.len() implies (#[trigger] first[i]).since(start)
        < policy.window.nanos by {
        assert(first[i].nanos < start.nanos + policy.window.nanos);
    }
    lemma_exact_count(policy, start, first);
    let (n, at) = run(policy, fresh_entry(start), first);
    lemma_second_window(policy, at, second);
    let (k, then) = run(policy, at, second);
    let e = policy.rolled(then, now);
    assert(e.window_start.nanos == start.nanos + policy.window.nanos);
    assert(e.count == k && e.prev_count == n);
}

/// Law: a window that was left alone long enough is forgotten: a fixed one after its
/// length, a sliding one after twice that. A request then meets an empty bucket.
pub proof fn law_old_windows_are_forgotten(policy: Policy, e: Entry, now: Instant)
    requires
        policy.holds(e),
        policy.window.nanos > 0,
        now.nanos >= e.window_start.nanos + 2 * policy.window.nanos || (policy.strategy
            is FixedWindow && now.nanos >= e.window_start.nanos + policy.window.nanos),
    ensures
        policy.requests > 0 ==> policy.verdict(e, now) is Ok,
        policy.requests > 0 ==> policy.next(e, now) == (Entry {
            window_start: now,
            count: 1,
            prev_count: 0,
        }),
        policy.requests == 0 ==> policy.verdict(e, now) is Err,
        policy.idle(e, now),
{
    let w = policy.window.nanos as int;
    let limit = policy.requests as int;
    assert(0 * w == 0 && (0 + 1) * w == w) by (nonlinear_arith);
    assert(limit > 0 ==> w <= limit * w) by (nonlinear_arith)
        requires
            w > 0,
            limit >= 0,
    ;
    assert(limit == 0 ==> limit * w == 0) by (nonlinear_arith);
}

/// Law: what is not yet forgotten is not idle.
pub proof fn law_live_windows_are_not_idle(policy: Policy, e: Entry, now: Instant)
    requires
        e.window_start.nanos <= now.nanos,
        now.nanos < e.window_start.nanos + policy.window.nanos || (policy.strategy is SlidingWindow
            && now.nanos < e.window_start.nanos + 2 * policy.window.nanos),
    ensures
        !policy.idle(e, now),
{
}

/// Law: where the window itself is full, the reported wait is no longer than it has to
/// be: a whole second before it is over there is still no room.
pub proof fn law_wait_of_a_full_window_is_tight(policy: Policy, e: Entry, now: Instant, t: Instant)
    requires
        policy.holds(e),
        policy.window.nanos > 0,
        policy.requests > 0,
        policy.rolled(e, now).count == policy.requests,
        policy.rolled(e, now).window_start.nanos <= now.nanos <= t.nanos,
        policy.verdict(e, now) is Err,
        t.nanos + NANOS_PER_SEC <= now.nanos + policy.verdict(e, now)->Err_0 * NANOS_PER_SEC,
        policy.verdict(e, now)->Err_0 > 1,
    ensures
        policy.verdict(policy.next(e, now), t) is Err,
{
    let at = policy.rolled(e, now);
    let w = policy.window.nanos as int;
    let limit = policy.requests as int;
    assert(policy.next(e, now) == at);
    assert(now.since(at.window_start) < w);
    assert(t.nanos < now.nanos + policy.until_room(at, now));
    if policy.strategy is SlidingWindow {
        let passed = t.nanos - at.window_start.nanos;
        law_decay_is_least(policy, at, passed - w);
        assert((at.count + 1 - limit) * w == w) by (nonlinear_arith)
            requires
                at.count == limit,
        ;
        let then = policy.rolled(at, t);
        let prev = then.prev_count as int;
        if passed < w {
            let left = w - passed;
            assert(prev * left + (limit + 1) * w > limit * w) by (nonlinear_arith)
                requires
                    prev >= 0,
                    left >= 0,
                    w > 0,
            ;
        } else {
            let x = passed - w;
            assert(x < policy.decay(at));
            assert(limit * x < w);
            assert(x < w) by (nonlinear_arith)
                requires
                    limit * x < w,
                    limit >= 1,
                    x >= 0,
            ;
            let left = w - x;
            assert(limit * left + (0 + 1) * w > limit * w) by (nonlinear_arith)
                requires
                    left == w - x,
                    limit * x < w,
            ;
        }
    }
}

/// Law: whoever shares a bucket is told the same, and whoever does not is told what
/// they would have been told anyway.
pub proof fn law_who_shares_a_limit(
    before: RouteLimiter,
    after: RouteLimiter,
    ip: IpAddr,
    other: IpAddr,
    now: Instant,
    later: Instant,
)
    requires
        limiter_moved(Some(before), Some(after), ip, now),
    ensures
        scope(before.store) is Global ==> before.told(now, ip) == before.told(now, other),
        scope(before.store) is Global ==> after.told(later, ip) == after.told(later, other),
        scope(before.store) is Ip && other != ip ==> after.told(later, other) == before.told(
            later,
            other,
        ),
{
}

/// Law: a limiter is what its configuration says: as many requests, in such a window,
/// counted so, for each client or for all. Nothing has been counted yet.
pub proof fn law_configured_limiter(
    rl: RateLimit,
    built: Option<RouteLimiter>,
    start: Instant,
    ip: IpAddr,
    now: Instant,
)
    requires
        is_fresh_limiter(Some(rl), built, start),
        start.nanos <= now.nanos,
        rl.window.nanos > 0,
    ensures
        built matches Some(l) && l.policy.requests == rl.requests && l.policy.window == rl.window
            && l.policy.strategy == rl.strategy && scope(l.store) == rl.per && (l.told(now, ip)
            is Ok <==> rl.requests > 0),
        is_fresh_limiter(None, None, start),
        !is_fresh_limiter(None, built, start),
{
    let l = built->0;
    let w = rl.window.nanos as int;
    let limit = rl.requests as int;
    let e = l.policy.rolled(met(l.bucket(ip), now), now);
    let left = w - now.since(e.window_start);
    assert(0 * left == 0 && (0 + 1) * w == w) by (nonlinear_arith);
    assert(limit > 0 <==> w <= limit * w) by (nonlinear_arith)
        requires
            w > 0,
            limit >= 0,
    ;
}

/// Law: a route without a limit of its own has the gateway's, if there is one.
pub proof fn law_gateway_limit_is_the_fallback(route: Route, config: Config)
    requires
        route.rate_limit is None,
    ensures
        limit_of(route, config) == config.gateway.global_rate_limit,
{
}

/// Law: sweeping is not noticed. It drops the idle buckets of single clients and keeps
/// every other, and whoever asks later is told what they would have been told anyway.
pub proof fn law_sweeping_is_not_noticed(
    before: RouteLimiter,
    after: RouteLimiter,
    ip: IpAddr,
    now: Instant,
    later: Instant,
)
    requires
        limiter_swept(Some(before), Some(after), now),
        now.nanos <= later.nanos,
        before.bucket(ip) matches Some(e) ==> before.policy.holds(e) && e.window_start.nanos
            <= now.nanos,
    ensures
        after.told(later, ip) == before.told(later, ip),
        scope(before.store) is Ip ==> (before.bucket(ip) matches Some(e) ==> (after.bucket(ip)
            is None <==> before.policy.idle(e, now))),
        scope(before.store) is Global ==> after.bucket(ip) == before.bucket(ip),
        after.bucket(ip) is Some ==> after.bucket(ip) == before.bucket(ip),
{
    if let Some(e) = before.bucket(ip) {
        if before.policy.idle(e, now) {
            law_sweeping_changes_nothing(before.policy, e, now, later);
        }
    }
}

} // verus!
