//! Load-balancing target ordering.
//!
//! The balancer's sole job is to produce a **preference ordering** of a route's
//! targets for one request. Eligibility (health and circuit breaker) is layered
//! on top by [`RouteUpstream::select`](super::target::RouteUpstream::select),
//! which walks this ordering and takes the first target that is usable.
//!
//! * `RoundRobin` keeps a cursor that moves once per request; weight is ignored.
//!   Request *k* prefers target `k % n`.
//! * `Weighted` is smooth weighted round-robin: each request adds every target's
//!   weight to its running current weight, the highest wins and has the total
//!   weight taken off again. Over `sum(weights)` requests each target is chosen
//!   exactly `weight` times. The chosen target leads the order; the rest follow
//!   in index order so that a retry has somewhere to go.
//! * `Single` is the one-target upstream.

use vstd::prelude::*;

verus! {

/// The most targets a weighted balancer takes: with this many, the sum of the
/// weights still fits in 63 bits.
pub const MAX_WEIGHTED_TARGETS: usize = 0x7fff_ffff;

/// Per-route balancing state.
pub enum Balancer {
    /// One target: always target 0.
    Single,
    /// Round-robin over all targets; weight ignored.
    RoundRobin { cursor: usize },
    /// Smooth weighted round-robin. `current` holds each target's running current
    /// weight, `weights` the configured weight per target.
    Weighted { weights: Vec<i128>, current: Vec<i128> },
}

/// What a [`Balancer`] holds.
#[verifier::ext_equal]
pub enum BalancerView {
    Single,
    RoundRobin { cursor: int },
    Weighted { weights: Seq<i128>, current: Seq<i128> },
}

impl View for Balancer {
    type V = BalancerView;

    open spec fn view(&self) -> BalancerView {
        match self {
            Balancer::Single => BalancerView::Single,
            Balancer::RoundRobin { cursor } => BalancerView::RoundRobin { cursor: *cursor as int },
            Balancer::Weighted { weights, current } => BalancerView::Weighted {
                weights: weights@,
                current: current@,
            },
        }
    }
}

/// The sum of a sequence of weights.
pub open spec fn total(s: Seq<i128>) -> int
    decreases s.len(),
{
    if s.len() == 0 {
        0
    } else {
        total(s.drop_last()) + s.last()
    }
}

/// The first position that holds the greatest value.
pub open spec fn argmax(s: Seq<int>) -> int
    decreases s.len(),
{
    if s.len() <= 1 {
        0
    } else {
        let best = argmax(s.drop_last());
        if s.last() > s[best] {
            s.len() - 1
        } else {
            best
        }
    }
}

/// Every target's current weight with its own weight added.
pub open spec fn raised(weights: Seq<i128>, current: Seq<i128>) -> Seq<int> {
    Seq::new(weights.len(), |i: int| current[i] + weights[i])
}

/// The target one weighted step picks.
pub open spec fn pick(weights: Seq<i128>, current: Seq<i128>) -> int {
    argmax(raised(weights, current))
}

/// The current weights after one weighted step.
pub open spec fn stepped(weights: Seq<i128>, current: Seq<i128>) -> Seq<i128> {
    Seq::new(
        weights.len(),
        |i: int|
            (raised(weights, current)[i] - if i == pick(weights, current) {
                total(weights)
            } else {
                0
            }) as i128,
    )
}

/// `first`, then every other index below `n` in ascending order.
pub open spec fn led_by(first: int, n: int) -> Seq<usize> {
    seq![first as usize] + Seq::new(
        (if 0 <= first < n {
            n - 1
        } else {
            n
        }) as nat,
        |i: int|
            (if i < first {
                i
            } else {
                i + 1
            }) as usize,
    )
}

/// `0..n` rotated so that it begins with `start`.
pub open spec fn rotation(start: int, n: int) -> Seq<usize> {
    Seq::new(n as nat, |i: int| ((start + i) % n) as usize)
}

/// Each index below `n` exactly once.
pub open spec fn is_permutation(order: Seq<usize>, n: int) -> bool {
    &&& order.len() == n
    &&& forall|i: int| 0 <= i < n ==> 0 <= #[trigger] order[i] < n
    &&& forall|i: int, j: int| 0 <= i < j < n ==> order[i] != order[j]
}

impl BalancerView {
    /// What holds of a balancer from its construction on: a weighted balancer has
    /// weights of at most 32 bits, and its current weights sum to zero and none
    /// is below minus the total.
    pub open spec fn valid(self) -> bool {
        match self {
            BalancerView::Weighted { weights, current } => {
                &&& weights.len() <= MAX_WEIGHTED_TARGETS
                &&& current.len() == weights.len()
                &&& forall|i: int| 0 <= i < weights.len() ==> 0 <= #[trigger] weights[i] <= u32::MAX
                &&& total(current) == 0
                &&& forall|i: int|
                    0 <= i < current.len() ==> -total(weights) <= #[trigger] current[i]
                &&& total(weights) > 0 ==> forall|i: int|
                    0 <= i < current.len() ==> -total(weights) < #[trigger] current[i]
            },
            _ => true,
        }
    }

    /// Whether an ordering of `n` targets can be asked for.
    pub open spec fn can_order(self, n: int) -> bool {
        match self {
            BalancerView::Single => true,
            BalancerView::RoundRobin { .. } => n > 0,
            BalancerView::Weighted { weights, .. } => weights.len() > 0,
        }
    }

    /// The preference ordering of `n` targets for the next request.
    pub open spec fn order(self, n: int) -> Seq<usize> {
        match self {
            BalancerView::Single => seq![0usize],
            BalancerView::RoundRobin { cursor } => rotation(cursor % n, n),
            BalancerView::Weighted { weights, current } => led_by(pick(weights, current), n),
        }
    }

    /// The balancer after that request.
    pub open spec fn next(self) -> BalancerView {
        match self {
            BalancerView::Single => self,
            BalancerView::RoundRobin { cursor } => BalancerView::RoundRobin {
                cursor: if cursor == usize::MAX {
                    0
                } else {
                    cursor + 1
                },
            },
            BalancerView::Weighted { weights, current } => BalancerView::Weighted {
                weights,
                current: stepped(weights, current),
            },
        }
    }

    /// The number of targets the balancer is made for, given the size of the pool.
    pub open spec fn covers(self, n: int) -> bool {
        match self {
            BalancerView::Single => n == 1,
            BalancerView::RoundRobin { .. } => n > 0,
            BalancerView::Weighted { weights, .. } => n == weights.len() && n > 0,
        }
    }
}

/// The value at [`argmax`] is greater than all before it and not less than any
/// after it.
pub proof fn lemma_argmax(s: Seq<int>)
    requires
        s.len() > 0,
    ensures
        0 <= argmax(s) < s.len(),
        forall|i: int| 0 <= i < s.len() ==> #[trigger] s[i] <= s[argmax(s)],
        forall|i: int| 0 <= i < argmax(s) ==> #[trigger] s[i] < s[argmax(s)],
    decreases s.len(),
{
    if s.len() > 1 {
        let front = s.drop_last();
        lemma_argmax(front);
        assert forall|i: int| 0 <= i < s.len() implies #[trigger] s[i] <= s[argmax(s)] by {
            if i < front.len() {
                assert(front[i] == s[i]);
            }
        }
        assert forall|i: int| 0 <= i < argmax(s) implies #[trigger] s[i] < s[argmax(s)] by {
            assert(front[i] == s[i]);
        }
    }
}

/// A sum of values that are all at least `low` is at least `low` per value.
proof fn lemma_total_at_least(s: Seq<i128>, low: int)
    requires
        forall|i: int| 0 <= i < s.len() ==> low <= #[trigger] s[i],
    ensures
        total(s) >= low * s.len(),
    decreases s.len(),
{
    if s.len() > 0 {
        let front = s.drop_last();
        assert forall|i: int| 0 <= i < front.len() implies low <= #[trigger] front[i] by {
            assert(front[i] == s[i]);
        }
        lemma_total_at_least(front, low);
        assert(low * s.len() == low * front.len() + low) by (nonlinear_arith)
            requires
                s.len() == front.len() + 1,
        ;
    }
}

/// A sum of values that are all at most `high` is at most `high` per value.
proof fn lemma_total_at_most(s: Seq<i128>, high: int)
    requires
        forall|i: int| 0 <= i < s.len() ==> #[trigger] s[i] <= high,
    ensures
        total(s) <= high * s.len(),
    decreases s.len(),
{
    if s.len() > 0 {
        let front = s.drop_last();
        assert forall|i: int| 0 <= i < front.len() implies #[trigger] front[i] <= high by {
            assert(front[i] == s[i]);
        }
        lemma_total_at_most(front, high);
        assert(high * s.len() == high * front.len() + high) by (nonlinear_arith)
            requires
                s.len() == front.len() + 1,
        ;
    }
}

/// Taking one value out of a sum leaves the sum of the others.
proof fn lemma_total_remove(s: Seq<i128>, k: int)
    requires
        0 <= k < s.len(),
    ensures
        total(s) == total(s.remove(k)) + s[k],
    decreases s.len(),
{
    let front = s.drop_last();
    if k == s.len() - 1 {
        assert(s.remove(k) =~= front);
    } else {
        lemma_total_remove(front, k);
        assert(s.remove(k).drop_last() =~= front.remove(k));
        assert(s.remove(k).last() == s.last());
    }
}

/// A value in a sequence that sums to zero is at most what the others can owe.
proof fn lemma_bounded_above(s: Seq<i128>, t: int, k: int)
    requires
        total(s) == 0,
        t >= 0,
        forall|i: int| 0 <= i < s.len() ==> -t <= #[trigger] s[i],
        0 <= k < s.len(),
    ensures
        s[k] <= t * s.len(),
{
    lemma_total_remove(s, k);
    let rest = s.remove(k);
    assert forall|i: int| 0 <= i < rest.len() implies -t <= #[trigger] rest[i] by {
        assert(rest[i] == s[if i < k {
            i
        } else {
            i + 1
        }]);
    }
    lemma_total_at_least(rest, -t);
    assert((-t) * rest.len() >= -(t * s.len())) by (nonlinear_arith)
        requires
            s.len() == rest.len() + 1,
            t >= 0,
    ;
}

/// The sum of weights of at most 32 bits, taken over at most
/// [`MAX_WEIGHTED_TARGETS`] targets, fits in 63 bits.
proof fn lemma_total_fits(weights: Seq<i128>)
    requires
        weights.len() <= MAX_WEIGHTED_TARGETS,
        forall|i: int| 0 <= i < weights.len() ==> 0 <= #[trigger] weights[i] <= u32::MAX,
    ensures
        0 <= total(weights) <= 0x7fff_ffff_ffff_ffff,
        total(weights) * weights.len() <= 0x7fff_ffff_ffff_ffff * 0x7fff_ffff,
{
    lemma_total_at_least(weights, 0);
    lemma_total_at_most(weights, u32::MAX as int);
    assert(u32::MAX as int * weights.len() <= 0xffff_ffff * 0x7fff_ffff) by (nonlinear_arith)
        requires
            weights.len() <= 0x7fff_ffff,
    ;
    let t = total(weights);
    assert(t * weights.len() <= 0x7fff_ffff_ffff_ffff * 0x7fff_ffff) by (nonlinear_arith)
        requires
            0 <= t <= 0x7fff_ffff_ffff_ffff,
            0 <= weights.len() <= 0x7fff_ffff,
    ;
}

/// The sum of position-wise sums is the sum of the sums.
proof fn lemma_total_sum(a: Seq<i128>, b: Seq<i128>, c: Seq<i128>)
    requires
        a.len() == b.len() == c.len(),
        forall|i: int| 0 <= i < a.len() ==> #[trigger] c[i] == a[i] + b[i],
    ensures
        total(c) == total(a) + total(b),
    decreases a.len(),
{
    if a.len() > 0 {
        assert forall|i: int| 0 <= i < a.len() - 1 implies #[trigger] c.drop_last()[i]
            == a.drop_last()[i] + b.drop_last()[i] by {
            assert(c[i] == a[i] + b[i]);
        }
        lemma_total_sum(a.drop_last(), b.drop_last(), c.drop_last());
        assert(c.last() == a.last() + b.last()) by {
            assert(c[c.len() - 1] == a[a.len() - 1] + b[b.len() - 1]);
        }
    }
}

/// Changing one value changes the sum by the same amount.
proof fn lemma_total_update(s: Seq<i128>, k: int, v: i128)
    requires
        0 <= k < s.len(),
    ensures
        total(s.update(k, v)) == total(s) - s[k] + v,
{
    lemma_total_remove(s, k);
    lemma_total_remove(s.update(k, v), k);
    assert(s.update(k, v).remove(k) =~= s.remove(k));
}

/// One weighted step: every value it computes fits, and the state it leaves is
/// valid again.
pub proof fn lemma_step(weights: Seq<i128>, current: Seq<i128>)
    requires
        (BalancerView::Weighted { weights, current }).valid(),
        weights.len() > 0,
    ensures
        0 <= pick(weights, current) < weights.len(),
        total(weights) <= 0x7fff_ffff_ffff_ffff,
        forall|i: int|
            0 <= i < weights.len() ==> i128::MIN < #[trigger] raised(weights, current)[i]
                < i128::MAX,
        forall|i: int|
            0 <= i < weights.len() ==> i128::MIN <= #[trigger] raised(weights, current)[i] - total(
                weights,
            ),
        forall|i: int|
            0 <= i < weights.len() ==> #[trigger] stepped(weights, current)[i] == raised(
                weights,
                current,
            )[i] - if i == pick(weights, current) {
                total(weights)
            } else {
                0
            },
        (BalancerView::Weighted { weights, current: stepped(weights, current) }).valid(),
{
    let t = total(weights);
    let up = raised(weights, current);
    let p = pick(weights, current);
    lemma_total_fits(weights);
    lemma_argmax(up);
    assert forall|i: int| 0 <= i < weights.len() implies -t <= #[trigger] up[i]
        <= 0x8000_0000_0000_0000 * 0x8000_0000 by {
        lemma_bounded_above(current, t, i);
        assert(0 <= weights[i] <= u32::MAX);
        assert(-t <= current[i]);
    }
    let next = stepped(weights, current);
    let up_exec = Seq::new(weights.len(), |i: int| up[i] as i128);
    assert forall|i: int| 0 <= i < weights.len() implies #[trigger] up_exec[i] == current[i]
        + weights[i] by {
        assert(up[i] == current[i] + weights[i]);
    }
    lemma_total_sum(current, weights, up_exec);
    assert(up[p] >= -t);
    assert(up[p] - t >= i128::MIN);
    assert(next =~= up_exec.update(p, (up[p] - t) as i128)) by {
        assert forall|i: int| 0 <= i < weights.len() implies next[i] == up_exec.update(
            p,
            (up[p] - t) as i128,
        )[i] by {
            assert(up[i] == current[i] + weights[i]);
        }
    }
    lemma_total_update(up_exec, p, (up[p] - t) as i128);
    assert(total(next) == 0);
    if up[p] < 0 {
        assert forall|i: int| 0 <= i < up_exec.len() implies #[trigger] up_exec[i] <= -1 by {
            assert(up[i] <= up[p]);
        }
        lemma_total_at_most(up_exec, -1);
        assert(false);
    }
    if t > 0 && up[p] <= 0 {
        assert forall|i: int| 0 <= i < up_exec.len() implies #[trigger] up_exec[i] <= 0 by {
            assert(up[i] <= up[p]);
        }
        lemma_total_at_most(up_exec, 0);
        assert(false);
    }
    assert forall|i: int| 0 <= i < next.len() implies -t <= #[trigger] next[i] && (t > 0 ==> -t
        < next[i]) by {
        assert(up[i] == current[i] + weights[i]);
        assert(0 <= weights[i]);
        assert(-t <= current[i]);
    }
}


impl Balancer {
    /// Round-robin, starting with target 0.
    pub fn round_robin() -> (b: Balancer)
        ensures
            b@ == (BalancerView::RoundRobin { cursor: 0 }),
            b@.valid(),
    {
        Balancer::RoundRobin { cursor: 0 }
    }

    /// Smooth weighted round-robin over the given per-target weights.
    pub fn weighted(weights: &[u32]) -> (b: Balancer)
        requires
            weights@.len() <= MAX_WEIGHTED_TARGETS,
        ensures
            b@ == fresh_weighted(weights@),
            b@.valid(),
    {
        let mut held: Vec<i128> = Vec::new();
        let mut current: Vec<i128> = Vec::new();
        let mut i: usize = 0;
        while i < weights.len()
            invariant
                i <= weights@.len(),
                held@.len() == i,
                current@.len() == i,
                forall|j: int| 0 <= j < i ==> #[trigger] held@[j] == weights@[j],
                forall|j: int| 0 <= j < i ==> #[trigger] current@[j] == 0,
            decreases weights@.len() - i,
        {
            held.push(weights[i] as i128);
            current.push(0);
            i += 1;
        }
        proof {
            lemma_total_at_least(current@, 0);
            lemma_total_at_most(current@, 0);
            lemma_total_fits(held@);
            assert(held@ =~= Seq::new(weights@.len(), |j: int| weights@[j] as i128));
            assert(current@ =~= Seq::new(weights@.len(), |j: int| 0i128));
        }
        Balancer::Weighted { weights: held, current }
    }

    /// Produce the preference ordering for one request. The balancer moves on
    /// exactly once per call, so one client request calls this once and its
    /// retries walk the ordering that came back.
    pub fn preference_order(&mut self, n: usize) -> (order: Vec<usize>)
        requires
            old(self)@.valid(),
            old(self)@.can_order(n as int),
        ensures
            order@ == old(self)@.order(n as int),
            final(self)@ == old(self)@.next(),
            final(self)@.valid(),
            old(self)@.covers(n as int) ==> is_permutation(order@, n as int),
            forall|m: int| old(self)@.covers(m) ==> #[trigger] final(self)@.covers(m),
    {
        match self {
            Balancer::Single => {
                let mut order: Vec<usize> = Vec::new();
                order.push(0);
                order
            },
            Balancer::RoundRobin { cursor } => {
                let start: usize = *cursor % n;
                if *cursor == usize::MAX {
                    *cursor = 0;
                } else {
                    *cursor = *cursor + 1;
                }
                rotated(start, n)
            },
            Balancer::Weighted { weights, current } => {
                let first: usize = swrr_pick(weights, current);
                lead(first, n)
            },
        }
    }
}

/// The state [`Balancer::weighted`] starts from: nothing owed to anyone.
pub open spec fn fresh_weighted(weights: Seq<u32>) -> BalancerView {
    BalancerView::Weighted {
        weights: Seq::new(weights.len(), |i: int| weights[i] as i128),
        current: Seq::new(weights.len(), |i: int| 0i128),
    }
}

/// `0..n` rotated so that it begins with `start`.
fn rotated(start: usize, n: usize) -> (order: Vec<usize>)
    requires
        start < n,
    ensures
        order@ == rotation(start as int, n as int),
        is_permutation(order@, n as int),
{
    let mut order: Vec<usize> = Vec::new();
    let mut i: usize = 0;
    while i < n
        invariant
            start < n,
            i <= n,
            order@.len() == i,
            forall|j: int|
                0 <= j < i ==> #[trigger] order@[j] == if start + j < n {
                    start + j
                } else {
                    start + j - n
                },
        decreases n - i,
    {
        let at: usize = if i < n - start {
            start + i
        } else {
            i - (n - start)
        };
        order.push(at);
        i += 1;
    }
    assert(order@ =~= rotation(start as int, n as int)) by {
        assert forall|j: int| 0 <= j < n implies order@[j] == rotation(start as int, n as int)[j] by {
            if start + j < n {
                vstd::arithmetic::div_mod::lemma_small_mod((start + j) as nat, n as nat);
            } else {
                vstd::arithmetic::div_mod::lemma_mod_add_multiples_vanish(start + j - n, n as int);
                vstd::arithmetic::div_mod::lemma_small_mod((start + j - n) as nat, n as nat);
            }
        }
    }
    order
}

/// `first`, then the other indices below `n` in ascending order.
fn lead(first: usize, n: usize) -> (order: Vec<usize>)
    ensures
        order@ == led_by(first as int, n as int),
        first < n ==> is_permutation(order@, n as int),
{
    let mut order: Vec<usize> = Vec::new();
    order.push(first);
    let mut i: usize = 0;
    while i < n
        invariant
            i <= n,
            order@.len() == 1 + i - if first < i {
                1int
            } else {
                0
            },
            order@[0] == first,
            forall|j: int|
                1 <= j < order@.len() ==> #[trigger] order@[j] == if j - 1 < first {
                    j - 1
                } else {
                    j as int
                },
        decreases n - i,
    {
        if i != first {
            order.push(i);
        }
        i += 1;
    }
    assert(order@ =~= led_by(first as int, n as int));
    order
}

/// One smooth weighted step: moves `current` on and returns the target it picks.
fn swrr_pick(weights: &Vec<i128>, current: &mut Vec<i128>) -> (best: usize)
    requires
        (BalancerView::Weighted { weights: weights@, current: old(current)@ }).valid(),
        weights@.len() > 0,
    ensures
        best == pick(weights@, old(current)@),
        best < weights@.len(),
        final(current)@ == stepped(weights@, old(current)@),
        (BalancerView::Weighted { weights: weights@, current: final(current)@ }).valid(),
{
    let ghost start = current@;
    let ghost up = raised(weights@, start);
    proof {
        lemma_step(weights@, start);
        lemma_total_fits(weights@);
    }
    let mut sum: i128 = 0;
    let mut best: usize = 0;
    let mut i: usize = 0;
    while i < weights.len()
        invariant
            i <= weights@.len(),
            weights@.len() > 0,
            weights@.len() <= MAX_WEIGHTED_TARGETS,
            start.len() == weights@.len(),
            current@.len() == weights@.len(),
            up == raised(weights@, start),
            forall|j: int| 0 <= j < weights@.len() ==> 0 <= #[trigger] weights@[j] <= u32::MAX,
            forall|j: int|
                0 <= j < weights@.len() ==> i128::MIN < #[trigger] up[j] < i128::MAX,
            forall|j: int| 0 <= j < i ==> #[trigger] current@[j] == up[j],
            forall|j: int| i <= j < weights@.len() ==> #[trigger] current@[j] == start[j],
            sum == total(weights@.take(i as int)),
            best == argmax(up.take(i as int)),
            best < weights@.len(),
            i > 0 ==> best < i,
        decreases weights@.len() - i,
    {
        proof {
            let seen = weights@.take(i as int);
            let more = weights@.take(i + 1);
            assert(more.drop_last() =~= seen);
            assert(more.last() == weights@[i as int]);
            assert forall|j: int| 0 <= j < seen.len() implies 0 <= #[trigger] seen[j]
                <= u32::MAX by {
                assert(seen[j] == weights@[j]);
            }
            lemma_total_fits(seen);
            assert(up.take(i + 1).drop_last() =~= up.take(i as int));
            assert(up[i as int] == start[i as int] + weights@[i as int]);
        }
        sum = sum + weights[i];
        current[i] = current[i] + weights[i];
        if i == 0 || current[i] > current[best] {
            best = i;
        }
        i += 1;
    }
    proof {
        assert(weights@.take(weights@.len() as int) =~= weights@);
        assert(up.take(weights@.len() as int) =~= up);
        assert(up[best as int] - total(weights@) >= i128::MIN);
    }
    current[best] = current[best] - sum;
    assert(current@ =~= stepped(weights@, start));
    best
}

/// The balancer after `k` requests.
pub open spec fn after(b: BalancerView, k: nat) -> BalancerView
    decreases k,
{
    if k == 0 {
        b
    } else {
        after(b, (k - 1) as nat).next()
    }
}

/// How many of the first `k` requests had target `i` first.
pub open spec fn times_first(b: BalancerView, n: int, i: int, k: nat) -> nat
    decreases k,
{
    if k == 0 {
        0
    } else {
        times_first(b, n, i, (k - 1) as nat) + if after(b, (k - 1) as nat).order(n)[0] == i {
            1nat
        } else {
            0
        }
    }
}

/// Law: under round-robin over `n` targets, request `k` (counted from 0) prefers
/// target `k % n`.
pub proof fn law_round_robin_rotates(n: int, k: nat)
    requires
        0 < n <= usize::MAX,
        k <= usize::MAX,
    ensures
        after(BalancerView::RoundRobin { cursor: 0 }, k).order(n)[0] == k as int % n,
{
    lemma_cursor(k);
    let at = k as int % n;
    vstd::arithmetic::div_mod::lemma_small_mod(at as nat, n as nat);
}

/// After `k` requests the cursor stands at `k`.
proof fn lemma_cursor(k: nat)
    requires
        k <= usize::MAX,
    ensures
        after(BalancerView::RoundRobin { cursor: 0 }, k) == (BalancerView::RoundRobin {
            cursor: k as int,
        }),
    decreases k,
{
    if k > 0 {
        lemma_cursor((k - 1) as nat);
    }
}

/// Law: round-robin splits a steady stream evenly. Of any `n` requests in a row,
/// beginning at request `k`, target `i` is first in exactly one: request
/// `k + (i - k) % n`.
pub proof fn law_round_robin_is_even(n: int, k: nat, i: int, d: int)
    requires
        0 < n <= usize::MAX,
        k + n - 1 <= usize::MAX,
        0 <= i < n,
        0 <= d < n,
    ensures
        (after(BalancerView::RoundRobin { cursor: 0 }, (k + d) as nat).order(n)[0] == i) <==> d == (
        i - k) % n,
{
    law_round_robin_rotates(n, (k + d) as nat);
    let e = (i - k) % n;
    vstd::arithmetic::div_mod::lemma_mod_bound(i - k, n);
    vstd::arithmetic::div_mod::lemma_add_mod_noop_right(k as int, i - k, n);
    vstd::arithmetic::div_mod::lemma_small_mod(i as nat, n as nat);
    assert((k + e) % n == i);
    if (k + d) as int % n == i {
        vstd::arithmetic::div_mod::lemma_sub_mod_noop(k + d, k + e, n);
        vstd::arithmetic::div_mod::lemma_small_mod(0, n as nat);
        assert((k + d) - (k + e) == d - e);
        if d >= e {
            vstd::arithmetic::div_mod::lemma_small_mod((d - e) as nat, n as nat);
        } else {
            vstd::arithmetic::div_mod::lemma_mod_add_multiples_vanish(d - e, n);
            vstd::arithmetic::div_mod::lemma_small_mod((d - e + n) as nat, n as nat);
        }
    }
}

/// The weights a weighted balancer is made with never change, and each current
/// weight is what the target has earned less what its picks have cost.
proof fn lemma_ledger(weights: Seq<i128>, start: Seq<i128>, k: nat)
    requires
        (BalancerView::Weighted { weights, current: start }).valid(),
        weights.len() > 0,
    ensures
        after(BalancerView::Weighted { weights, current: start }, k) matches BalancerView::Weighted {
            weights: w,
            current,
        } && w == weights && after(BalancerView::Weighted { weights, current: start }, k).valid()
            && forall|i: int|
            0 <= i < weights.len() ==> #[trigger] current[i] == start[i] + k * weights[i] - total(
                weights,
            ) * times_first(
                BalancerView::Weighted { weights, current: start },
                weights.len() as int,
                i,
                k,
            ),
    decreases k,
{
    let b = BalancerView::Weighted { weights, current: start };
    let n = weights.len() as int;
    if k > 0 {
        let before = (k - 1) as nat;
        lemma_ledger(weights, start, before);
        let held = after(b, before)->current;
        lemma_step(weights, held);
        let t = total(weights);
        assert forall|i: int| 0 <= i < weights.len() implies #[trigger] stepped(
            weights,
            held,
        )[i] == start[i] + k * weights[i] - t * times_first(b, n, i, k) by {
            let c = times_first(b, n, i, before);
            assert(held[i] == start[i] + before * weights[i] - t * c);
            assert(raised(weights, held)[i] == held[i] + weights[i]);
            assert(k * weights[i] == before * weights[i] + weights[i]) by (nonlinear_arith)
                requires
                    k == before + 1,
            ;
            assert(t * (c + 1) == t * c + t) by (nonlinear_arith);
            assert(after(b, before).order(n)[0] == pick(weights, held));
        }
    } else {
        assert forall|i: int| 0 <= i < weights.len() implies #[trigger] start[i] == start[i] + 0
            * weights[i] - total(weights) * times_first(b, n, i, 0) by {
            assert(0 * weights[i] == 0) by (nonlinear_arith);
            assert(total(weights) * 0 == 0) by (nonlinear_arith);
        }
    }
}

/// The first cycle: each target is first exactly `weight` times, and the balancer is
/// then back in the state it started from.
proof fn lemma_first_cycle(weights: Seq<u32>, i: int)
    requires
        0 <= i < weights.len(),
        weights.len() <= MAX_WEIGHTED_TARGETS,
    ensures
        ({
            let b = fresh_weighted(weights);
            &&& cycle(weights) >= 0
            &&& times_first(b, weights.len() as int, i, cycle(weights) as nat) == weights[i]
            &&& after(b, cycle(weights) as nat) == b
        }),
{
    let b = fresh_weighted(weights);
    let w = Seq::new(weights.len(), |j: int| weights[j] as i128);
    let zero = Seq::new(weights.len(), |j: int| 0i128);
    let n = w.len() as int;
    assert(b == (BalancerView::Weighted { weights: w, current: zero }));
    lemma_total_at_least(zero, 0);
    lemma_total_at_most(zero, 0);
    lemma_total_fits(w);
    let t = total(w);
    let k = t as nat;
    lemma_ledger(w, zero, k);
    let end = after(b, k)->current;
    if t == 0 {
        lemma_total_remove(w, i);
        lemma_rest_nonneg(w, i);
    } else {
        assert forall|j: int| 0 <= j < n implies #[trigger] end[j] == 0 by {
            assert forall|m: int| 0 <= m < n implies 0 <= #[trigger] end[m] by {
                let c = times_first(b, n, m, k);
                assert(end[m] == zero[m] + k * w[m] - t * c);
                assert(end[m] == t * (w[m] - c)) by (nonlinear_arith)
                    requires
                        end[m] == k * w[m] - t * c,
                        k == t,
                ;
                assert(-t < end[m]);
                assert(w[m] - c >= 0) by (nonlinear_arith)
                    requires
                        -t < t * (w[m] - c),
                        t > 0,
                ;
                assert(t * (w[m] - c) >= 0) by (nonlinear_arith)
                    requires
                        t > 0,
                        w[m] - c >= 0,
                ;
            }
            lemma_total_remove(end, j);
            lemma_rest_nonneg(end, j);
        }
        let c = times_first(b, n, i, k);
        assert(end[i] == zero[i] + k * w[i] - t * c);
        assert(w[i] == c) by (nonlinear_arith)
            requires
                0 == k * w[i] - t * c,
                k == t,
                t > 0,
        ;
        assert(end =~= zero);
    }
}

/// The requests of one cycle of a weighted balancer: the sum of the weights.
pub open spec fn cycle(weights: Seq<u32>) -> int {
    total(Seq::new(weights.len(), |j: int| weights[j] as i128))
}

/// Requests come one after another.
proof fn lemma_after_adds(b: BalancerView, j: nat, k: nat)
    ensures
        after(after(b, j), k) == after(b, j + k),
    decreases k,
{
    if k > 0 {
        lemma_after_adds(b, j, (k - 1) as nat);
    }
}

/// The requests from `j` on are those of the balancer as it stands at `j`.
proof fn lemma_times_first_adds(b: BalancerView, n: int, i: int, j: nat, k: nat)
    ensures
        times_first(b, n, i, j + k) == times_first(b, n, i, j) + times_first(after(b, j), n, i, k),
    decreases k,
{
    if k > 0 {
        lemma_times_first_adds(b, n, i, j, (k - 1) as nat);
        lemma_after_adds(b, j, (k - 1) as nat);
    }
}

/// Law: of any `sum(weights)` requests in a row, beginning at request `k`, smooth
/// weighted round-robin puts each target first in exactly `weight`, and is then back
/// in the state it was in before them.
pub proof fn law_weighted_split_is_exact(weights: Seq<u32>, i: int, k: nat)
    requires
        0 <= i < weights.len(),
        weights.len() <= MAX_WEIGHTED_TARGETS,
    ensures
        ({
            let b = after(fresh_weighted(weights), k);
            &&& times_first(b, weights.len() as int, i, cycle(weights) as nat) == weights[i]
            &&& after(b, cycle(weights) as nat) == b
        }),
{
    let b = fresh_weighted(weights);
    let n = weights.len() as int;
    let t = cycle(weights) as nat;
    lemma_first_cycle(weights, i);
    // One cycle and then `k` requests, and the other way round.
    lemma_after_adds(b, t, k);
    lemma_after_adds(b, k, t);
    lemma_times_first_adds(b, n, i, t, k);
    lemma_times_first_adds(b, n, i, k, t);
    assert(t + k == k + t);
}

/// What is left of a sum of non-negative values is not negative either.
proof fn lemma_rest_nonneg(s: Seq<i128>, k: int)
    requires
        0 <= k < s.len(),
        forall|i: int| 0 <= i < s.len() ==> 0 <= #[trigger] s[i],
    ensures
        total(s.remove(k)) >= 0,
{
    let rest = s.remove(k);
    assert forall|i: int| 0 <= i < rest.len() implies 0 <= #[trigger] rest[i] by {
        assert(rest[i] == s[if i < k {
            i
        } else {
            i + 1
        }]);
    }
    lemma_total_at_least(rest, 0);
}

/// Law: what an ordering looks like. Round-robin goes on from its first target in
/// turn; a weighted ordering has its pick first and then the others in their order; a
/// lone target is alone.
pub proof fn law_orderings(b: BalancerView, n: int, j: int)
    requires
        b.valid(),
        b.covers(n),
        n <= usize::MAX,
        0 <= j < n,
    ensures
        b is Single ==> b.order(n) == seq![0usize],
        b matches BalancerView::RoundRobin { cursor } ==> cursor >= 0 ==> b.order(n)[j] == (cursor
            + j) % n,
        b is Weighted && 0 < j < n - 1 ==> b.order(n)[j] < b.order(n)[j + 1],
{
    match b {
        BalancerView::RoundRobin { cursor } => {
            if cursor >= 0 {
                vstd::arithmetic::div_mod::lemma_mod_bound(cursor, n);
                vstd::arithmetic::div_mod::lemma_add_mod_noop_right(j, cursor, n);
            }
        },
        _ => {},
    }
}

/// Law: smooth weighted round-robin picks the target whose current weight, with its
/// own weight added, is greatest, and of equals the first; the total is then taken off
/// what that target has, and every other keeps what was added.
pub proof fn law_weighted_pick_is_greatest(weights: Seq<i128>, current: Seq<i128>, i: int)
    requires
        (BalancerView::Weighted { weights, current }).valid(),
        0 <= i < weights.len(),
    ensures
        ({
            let best = pick(weights, current);
            &&& 0 <= best < weights.len()
            &&& current[i] + weights[i] <= current[best] + weights[best]
            &&& i < best ==> current[i] + weights[i] < current[best] + weights[best]
            &&& stepped(weights, current)[i] == current[i] + weights[i] - if i == best {
                total(weights)
            } else {
                0
            }
        }),
{
    lemma_step(weights, current);
    lemma_argmax(raised(weights, current));
    assert(raised(weights, current)[i] == current[i] + weights[i]);
}

} // verus!
