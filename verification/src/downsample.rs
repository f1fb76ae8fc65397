//! Summarising a long history: one point for each stretch of time instead of
//! one for each record.
use vstd::prelude::*;

verus! {

/// Consecutive records taken in the same stretch of time.
#[derive(Debug, Clone, Copy, PartialEq, Eq)]
pub struct Bucket {
    /// When the stretch starts, in milliseconds since the Unix epoch.
    pub start: u64,
    /// The position of the first record.
    pub first: usize,
    /// The position after the last record.
    pub end: usize,
}

/// When the stretch of `step` milliseconds that `time` falls in starts:
/// stretches are counted from the epoch, so they don't depend on what is asked
/// for.
#[verifier::opaque]
pub open spec fn start_of(time: u64, step: u64) -> u64 {
    (time - time % step) as u64
}

/// The stretch that a time falls in starts a whole number of steps from the
/// epoch, at most that time and less than a step before it.
pub proof fn lemma_start_of(time: u64, step: u64)
    requires
        step > 0,
    ensures
        start_of(time, step) == time - time % step,
        start_of(time, step) == time / step * step,
        start_of(time, step) % step == 0,
        start_of(time, step) <= time < start_of(time, step) + step,
{
    reveal(start_of);
    let t = time as int;
    let s = step as int;
    vstd::arithmetic::div_mod::lemma_fundamental_div_mod(t, s);
    assert(0 <= t % s < s && t / s >= 0 && t / s * s >= 0) by (nonlinear_arith)
        requires
            s > 0,
            t >= 0,
    ;
    assert(s * (t / s) == t / s * s) by (nonlinear_arith);
    vstd::arithmetic::div_mod::lemma_mod_multiples_basic(t / s, s);
}

/// The records taken at `times`, gathered by the stretch of `step`
/// milliseconds they fall in.
pub open spec fn buckets(times: Seq<u64>, step: u64) -> Seq<Bucket>
    decreases times.len(),
{
    if times.len() == 0 {
        seq![]
    } else {
        let before = buckets(times.drop_last(), step);
        let start = start_of(times.last(), step);
        if before.len() > 0 && before.last().start == start {
            before.drop_last().push(Bucket { end: times.len() as usize, ..before.last() })
        } else {
            before.push(Bucket { start, first: (times.len() - 1) as usize, end: times.len() as usize })
        }
    }
}

/// Whether times are in order.
pub open spec fn ascending(times: Seq<u64>) -> bool {
    forall|i: int, j: int| 0 <= i < j < times.len() ==> times[i] <= times[j]
}

/// Gathers records by the stretch of `step` milliseconds they fall in.
pub fn gather(times: &[u64], step: u64) -> (r: Vec<Bucket>)
    requires
        step > 0,
    ensures
        r@ == buckets(times@, step),
{
    let mut r: Vec<Bucket> = Vec::new();
    for i in 0..times.len()
        invariant
            step > 0,
            r@ == buckets(times@.take(i as int), step),
    {
        assert(times@.take(i + 1).drop_last() =~= times@.take(i as int));
        proof {
            lemma_start_of(times@[i as int], step);
        }
        let start: u64 = times[i] - times[i] % step;
        let n = r.len();
        if n > 0 && r[n - 1].start == start {
            let open = r[n - 1];
            r.set(n - 1, Bucket { start: open.start, first: open.first, end: i + 1 });
            assert(r@ =~= buckets(times@.take(i + 1), step));
        } else {
            r.push(Bucket { start, first: i, end: i + 1 });
            assert(r@ =~= buckets(times@.take(i + 1), step));
        }
    }
    assert(times@.take(times@.len() as int) =~= times@);
    r
}

/// How `buckets` are laid out: one after the other, none empty, the last one
/// ending with the last of `n` records.
pub open spec fn tiled(buckets: Seq<Bucket>, n: nat) -> bool {
    &&& n == 0 ==> buckets.len() == 0
    &&& n > 0 ==> buckets.len() > 0 && buckets[0].first == 0 && buckets.last().end == n
    &&& forall|k: int| 0 <= k < buckets.len() ==> (#[trigger] buckets[k]).first < buckets[k].end
    &&& forall|k: int| 0 <= k < buckets.len() ==> (#[trigger] buckets[k]).end <= n
    &&& forall|j: int, k: int|
        0 <= j < k < buckets.len() && k == j + 1 ==> (#[trigger] buckets[j]).end == (#[trigger] buckets[k]).first
}

proof fn lemma_tiled(times: Seq<u64>, step: u64)
    requires
        times.len() <= usize::MAX,
    ensures
        tiled(buckets(times, step), times.len()),
    decreases times.len(),
{
    if times.len() > 0 {
        let before = buckets(times.drop_last(), step);
        let all = buckets(times, step);
        lemma_tiled(times.drop_last(), step);
        assert forall|j: int, k: int| 0 <= j < k < all.len() && k == j + 1 implies (#[trigger] all[j]).end == (
        #[trigger] all[k]).first by {
            if k < before.len() {
                assert(before[j].end == before[k].first);
            }
        }
        assert forall|k: int| 0 <= k < all.len() implies (#[trigger] all[k]).first < all[k].end && all[k].end
            <= times.len() by {
            if k < before.len() {
                assert(before[k].first < before[k].end);
            }
        }
    }
}

/// Whether each record of a bucket falls in the stretch that the bucket starts.
pub open spec fn gathered(buckets: Seq<Bucket>, times: Seq<u64>, step: u64) -> bool {
    forall|k: int, i: int|
        #![trigger buckets[k], times[i]]
        0 <= k < buckets.len() && buckets[k].first <= i < buckets[k].end ==> start_of(times[i], step)
            == buckets[k].start
}

proof fn lemma_gathered(times: Seq<u64>, step: u64)
    requires
        step > 0,
        times.len() <= usize::MAX,
    ensures
        gathered(buckets(times, step), times, step),
    decreases times.len(),
{
    if times.len() > 0 {
        let shorter = times.drop_last();
        let before = buckets(shorter, step);
        let all = buckets(times, step);
        lemma_gathered(shorter, step);
        lemma_tiled(shorter, step);
        assert forall|k: int, i: int|
            #![trigger all[k], times[i]]
            0 <= k < all.len() && all[k].first <= i < all[k].end implies start_of(times[i], step) == all[k].start by {
            if i < shorter.len() {
                assert(shorter[i] == times[i]);
                assert(k < before.len());
                assert(before[k].first == all[k].first && before[k].start == all[k].start);
                if k == before.len() - 1 {
                    assert(before[k].end == shorter.len());
                }
            } else {
                assert(times[i] == times.last());
                if k < before.len() && all[k] == before[k] {
                    assert(before[k].end <= shorter.len());
                }
            }
        }
    }
}

/// Every record is in one bucket: the buckets follow one another from the first
/// record to the last, each starts at a whole number of steps, and holds the
/// records whose stretch starts there.
pub proof fn law_buckets_partition_the_records(times: Seq<u64>, step: u64)
    requires
        step > 0,
        times.len() <= usize::MAX,
    ensures
        tiled(buckets(times, step), times.len()),
        gathered(buckets(times, step), times, step),
        forall|k: int| 0 <= k < buckets(times, step).len() ==> (#[trigger] buckets(times, step)[k]).start % step == 0,
{
    lemma_tiled(times, step);
    lemma_gathered(times, step);
    let all = buckets(times, step);
    assert forall|k: int| 0 <= k < all.len() implies (#[trigger] all[k]).start % step == 0 by {
        let i = all[k].first as int;
        assert(start_of(times[i], step) == all[k].start);
        lemma_start_of(times[i], step);
    }
}

/// A bucket starts where some record's stretch does, and every record's stretch
/// starts some bucket.
pub proof fn law_bucket_starts(times: Seq<u64>, step: u64)
    requires
        step > 0,
        times.len() <= usize::MAX,
    ensures
        forall|k: int|
            0 <= k < buckets(times, step).len() ==> exists|i: int|
                0 <= i < times.len() && start_of(#[trigger] times[i], step) == (#[trigger] buckets(times, step)[k]).start,
        forall|i: int|
            0 <= i < times.len() ==> exists|k: int|
                0 <= k < buckets(times, step).len() && start_of(#[trigger] times[i], step) == (
                #[trigger] buckets(times, step)[k]).start,
    decreases times.len(),
{
    if times.len() > 0 {
        let shorter = times.drop_last();
        law_bucket_starts(shorter, step);
        let before = buckets(shorter, step);
        let all = buckets(times, step);
        let n = times.len() as int - 1;
        assert forall|k: int| 0 <= k < all.len() implies exists|i: int|
            0 <= i < times.len() && start_of(#[trigger] times[i], step) == (#[trigger] all[k]).start by {
            if k < before.len() {
                assert(all[k].start == before[k].start);
                let i = choose|i: int|
                    0 <= i < shorter.len() && start_of(#[trigger] shorter[i], step) == before[k].start;
                assert(times[i] == shorter[i]);
            } else {
                assert(start_of(times[n], step) == all[k].start);
            }
        }
        assert forall|i: int| 0 <= i < times.len() implies exists|k: int|
            0 <= k < all.len() && start_of(#[trigger] times[i], step) == (#[trigger] all[k]).start by {
            if i < n {
                assert(times[i] == shorter[i]);
                let k = choose|k: int|
                    0 <= k < before.len() && start_of(shorter[i], step) == (#[trigger] before[k]).start;
                assert(all[k].start == before[k].start);
            } else {
                assert(all[all.len() - 1].start == start_of(times[n], step));
            }
        }
    }
}

/// Part of a history has the same bucket edges as the whole: each bucket of the
/// part starts where a bucket of the whole does.
pub proof fn law_a_part_has_the_edges_of_the_whole(part: Seq<u64>, whole: Seq<u64>, step: u64, k: int)
    requires
        step > 0,
        part.len() <= usize::MAX,
        whole.len() <= usize::MAX,
        forall|i: int| 0 <= i < part.len() ==> whole.contains(#[trigger] part[i]),
        0 <= k < buckets(part, step).len(),
    ensures
        exists|j: int|
            0 <= j < buckets(whole, step).len() && (#[trigger] buckets(whole, step)[j]).start == buckets(
                part,
                step,
            )[k].start,
{
    law_bucket_starts(part, step);
    law_bucket_starts(whole, step);
    let bucket = buckets(part, step)[k];
    let i = choose|i: int| 0 <= i < part.len() && start_of(#[trigger] part[i], step) == bucket.start;
    assert(whole.contains(part[i]));
    let m = choose|m: int| 0 <= m < whole.len() && whole[m] == part[i];
    assert(start_of(whole[m], step) == bucket.start);
}

/// The bucket width for at most `points` buckets over `span` milliseconds of
/// records taken every `interval`: the least whole number of intervals that is
/// wide enough for `points - 1` buckets to cover the span, so that `points`
/// hold it wherever they start. If no such width can be counted, the greatest
/// that can.
pub open spec fn step_for(span: u64, points: u64, interval: u64) -> u64
    recommends
        points >= 2,
        interval >= 1,
{
    let least = quotient_up(span as nat, (points - 1) as nat);
    let intervals = quotient_up(least, interval as nat);
    let count = if intervals == 0 {
        1
    } else {
        intervals
    };
    if count * interval <= u64::MAX {
        (count * interval) as u64
    } else {
        (u64::MAX / interval * interval) as u64
    }
}

/// `a` divided by `b`, rounded up.
pub open spec fn quotient_up(a: nat, b: nat) -> nat {
    if a % b == 0 {
        a / b
    } else {
        a / b + 1
    }
}

/// `a` divided by `b`, rounded up.
fn divided_up(a: u64, b: u64) -> (r: u64)
    requires
        b > 0,
    ensures
        r == quotient_up(a as nat, b as nat),
{
    proof {
        assert(b == 1 ==> a % b == 0);
        assert(b >= 2 ==> a / b <= a / 2) by (nonlinear_arith);
    }
    if a % b == 0 {
        a / b
    } else {
        a / b + 1
    }
}

/// The bucket width for at most `points` buckets over `span` milliseconds of
/// records taken every `interval`.
pub fn choose_step(span: u64, points: u64, interval: u64) -> (step: u64)
    requires
        points >= 2,
        interval >= 1,
    ensures
        step == step_for(span, points, interval),
        step > 0,
{
    let least: u64 = divided_up(span, points - 1);
    let intervals: u64 = divided_up(least, interval);
    let count: u64 = if intervals == 0 {
        1
    } else {
        intervals
    };
    proof {
        assert(count * interval >= 1) by (nonlinear_arith)
            requires
                count >= 1,
                interval >= 1,
        ;
        assert(u64::MAX / interval >= 1 && 1 <= u64::MAX / interval * interval <= u64::MAX) by (nonlinear_arith)
            requires
                interval >= 1,
        ;
    }
    match count.checked_mul(interval) {
        Some(step) => step,
        None => u64::MAX / interval * interval,
    }
}

/// There are no more buckets than steps from the first record's stretch to the
/// last's, both included.
proof fn lemma_bucket_count(times: Seq<u64>, step: u64)
    requires
        step > 0,
        0 < times.len() <= usize::MAX,
        ascending(times),
    ensures
        buckets(times, step).len() > 0,
        buckets(times, step).last().start == start_of(times.last(), step),
        buckets(times, step).len() <= times.last() / step - times[0] / step + 1,
    decreases times.len(),
{
    let shorter = times.drop_last();
    if shorter.len() > 0 {
        lemma_bucket_count(shorter, step);
        let a = shorter.last();
        let b = times.last();
        assert(a <= b);
        lemma_start_of(a, step);
        lemma_start_of(b, step);
        vstd::arithmetic::div_mod::lemma_div_is_ordered(a as int, b as int, step as int);
        if start_of(a, step) != start_of(b, step) {
            assert(a / step != b / step);
        }
        assert(shorter[0] == times[0]);
    } else {
        assert(buckets(shorter, step) =~= Seq::<Bucket>::empty());
    }
}

/// The width chosen for at most so many points is a whole number of sampling
/// intervals, and gives no more points than that.
pub proof fn law_at_most_so_many_points(times: Seq<u64>, points: u64, interval: u64)
    requires
        0 < times.len() <= usize::MAX,
        ascending(times),
        points >= 2,
        interval >= 1,
    ensures
        ({
            let step = step_for((times.last() - times[0]) as u64, points, interval);
            &&& step > 0
            &&& step % interval == 0
            &&& 0 < buckets(times, step).len() <= points
        }),
{
    let first = times[0] as int;
    let last = times.last() as int;
    let span = last - first;
    assert(span >= 0);
    let i = interval as int;
    let p = points as int - 1;
    let step = step_for(span as u64, points, interval);
    let least = quotient_up(span as nat, p as nat) as int;
    let intervals = quotient_up(least as nat, i as nat) as int;
    let count: int = if intervals == 0 {
        1
    } else {
        intervals
    };
    lemma_quotient_up(span as nat, p as nat);
    lemma_quotient_up(least as nat, i as nat);
    let s = step as int;
    if count * i <= u64::MAX {
        assert(s == count * i) by {
            assert(count * i >= 0) by (nonlinear_arith)
                requires
                    count >= 1,
                    i >= 1,
            ;
        }
        assert(s >= 1 && s >= least) by (nonlinear_arith)
            requires
                s == count * i,
                count >= 1,
                i >= 1,
                count >= intervals,
                intervals * i >= least,
        ;
        vstd::arithmetic::div_mod::lemma_mod_multiples_basic(count, i);
        assert(span <= s * p) by (nonlinear_arith)
            requires
                s >= least,
                least * p >= span,
                p >= 1,
        ;
        assert(last / s <= first / s + p) by (nonlinear_arith)
            requires
                s >= 1,
                last - first <= s * p,
                p >= 1,
        ;
    } else {
        let q = u64::MAX as int / i;
        assert(1 <= q && q * i <= u64::MAX && u64::MAX < 2 * (q * i)) by (nonlinear_arith)
            requires
                1 <= i <= u64::MAX,
                q == u64::MAX as int / i,
        ;
        assert(s == q * i);
        vstd::arithmetic::div_mod::lemma_mod_multiples_basic(q, i);
        assert(last / s <= 1 && first / s >= 0) by (nonlinear_arith)
            requires
                s >= 1,
                0 <= first,
                0 <= last < 2 * s,
        ;
    }
    lemma_bucket_count(times, step);
}

proof fn lemma_quotient_up(a: nat, b: nat)
    requires
        b > 0,
    ensures
        quotient_up(a, b) * b >= a,
{
    vstd::arithmetic::div_mod::lemma_fundamental_div_mod(a as int, b as int);
    assert((a / b + 1) * b == b * (a / b) + b && (a / b) * b == b * (a / b)) by (nonlinear_arith);
    assert(a % b < b) by (nonlinear_arith)
        requires
            b > 0,
    ;
}

/// Whether a value was measured: whether the exponent in the bits of a 64-bit
/// binary floating-point number is not the one that infinities and what is not
/// a number have.
pub open spec fn is_measured(bits: u64) -> bool {
    bits / 0x10_0000_0000_0000 % 0x800 != 0x7ff
}

/// Where a measured value stands among all: the bits of a number that is not
/// negative grow with it, and after the sign those of a negative one shrink.
pub open spec fn order(bits: u64) -> int {
    if bits < 0x8000_0000_0000_0000 {
        bits as int
    } else {
        0x7fff_ffff_ffff_ffff - bits
    }
}

/// Whether `low` is the least of the measured values among `values`, if any was
/// measured.
pub open spec fn is_least(values: Seq<u64>, low: Option<u64>) -> bool {
    match low {
        None => forall|i: int| 0 <= i < values.len() ==> !is_measured(#[trigger] values[i]),
        Some(low) => {
            &&& values.contains(low)
            &&& is_measured(low)
            &&& forall|i: int| 0 <= i < values.len() && is_measured(#[trigger] values[i]) ==> order(low) <= order(values[i])
        },
    }
}

/// Whether `high` is the greatest of the measured values among `values`, if any
/// was measured.
pub open spec fn is_greatest(values: Seq<u64>, high: Option<u64>) -> bool {
    match high {
        None => forall|i: int| 0 <= i < values.len() ==> !is_measured(#[trigger] values[i]),
        Some(high) => {
            &&& values.contains(high)
            &&& is_measured(high)
            &&& forall|i: int| 0 <= i < values.len() && is_measured(#[trigger] values[i]) ==> order(values[i]) <= order(high)
        },
    }
}

/// There is at most one least value and one greatest, and each measured value
/// lies between them.
pub proof fn law_extremes_bracket_every_value(values: Seq<u64>, low: Option<u64>, high: Option<u64>, other: Option<u64>)
    requires
        is_least(values, low),
        is_greatest(values, high),
    ensures
        is_least(values, other) ==> other == low,
        is_greatest(values, other) ==> other == high,
        low is Some == high is Some,
        forall|i: int|
            0 <= i < values.len() && is_measured(#[trigger] values[i]) ==> low is Some && order(low->0) <= order(
                values[i],
            ) <= order(high->0),
{
    if let Some(l) = low {
        let i = choose|i: int| 0 <= i < values.len() && values[i] == l;
        assert(is_measured(values[i]));
        if let Some(o) = other {
            let j = choose|j: int| 0 <= j < values.len() && values[j] == o;
            if is_least(values, other) || is_greatest(values, other) {
                assert(values.contains(o));
                assert(is_measured(values[j]));
            }
        }
    }
    if let Some(h) = high {
        let i = choose|i: int| 0 <= i < values.len() && values[i] == h;
        assert(is_measured(values[i]));
        if let Some(o) = other {
            let j = choose|j: int| 0 <= j < values.len() && values[j] == o;
            if is_least(values, other) || is_greatest(values, other) {
                assert(values.contains(o));
                assert(is_measured(values[j]));
            }
        }
    }
}

/// Whether a value was measured.
pub(crate) fn was_measured(bits: u64) -> (r: bool)
    ensures
        r == is_measured(bits),
{
    bits / 0x10_0000_0000_0000 % 0x800 != 0x7ff
}

/// Whether `a` comes before `b`.
fn before(a: u64, b: u64) -> (r: bool)
    ensures
        r == (order(a) < order(b)),
{
    if a < 0x8000_0000_0000_0000 && b < 0x8000_0000_0000_0000 {
        a < b
    } else if a < 0x8000_0000_0000_0000 {
        false
    } else if b < 0x8000_0000_0000_0000 {
        true
    } else {
        a > b
    }
}

/// The least of the measured values, if any was measured.
pub fn least(values: &[u64]) -> (low: Option<u64>)
    ensures
        is_least(values@, low),
{
    let mut low: Option<u64> = None;
    for i in 0..values.len()
        invariant
            is_least(values@.take(i as int), low),
    {
        let ghost seen = values@.take(i as int);
        let ghost more = values@.take(i + 1);
        assert(more =~= seen.push(values@[i as int]));
        let v = values[i];
        assert(more[i as int] == v);
        if let Some(l) = low {
            proof {
                let j = choose|j: int| 0 <= j < seen.len() && seen[j] == l;
                assert(more[j] == l);
            }
            if was_measured(v) && before(v, l) {
                low = Some(v);
            }
        } else if was_measured(v) {
            low = Some(v);
        }
    }
    assert(values@.take(values@.len() as int) =~= values@);
    low
}

/// The greatest of the measured values, if any was measured.
pub fn greatest(values: &[u64]) -> (high: Option<u64>)
    ensures
        is_greatest(values@, high),
{
    let mut high: Option<u64> = None;
    for i in 0..values.len()
        invariant
            is_greatest(values@.take(i as int), high),
    {
        let ghost seen = values@.take(i as int);
        let ghost more = values@.take(i + 1);
        assert(more =~= seen.push(values@[i as int]));
        let v = values[i];
        assert(more[i as int] == v);
        if let Some(h) = high {
            proof {
                let j = choose|j: int| 0 <= j < seen.len() && seen[j] == h;
                assert(more[j] == h);
            }
            if was_measured(v) && before(h, v) {
                high = Some(v);
            }
        } else if was_measured(v) {
            high = Some(v);
        }
    }
    assert(values@.take(values@.len() as int) =~= values@);
    high
}

/// The measured values among `values`.
pub open spec fn measured(values: Seq<u64>) -> Seq<u64> {
    values.filter(|v: u64| is_measured(v))
}

/// Whether `average` is what `mean` makes of the measured values among
/// `values`, if any was measured.
pub open spec fn averages<M: Fn(Vec<u64>) -> u64>(mean: M, values: Seq<u64>, average: Option<u64>) -> bool {
    match average {
        None => measured(values).len() == 0,
        Some(bits) => measured(values).len() > 0 && exists|given: Vec<u64>|
            #[trigger] given@ == measured(values) && call_ensures(mean, (given,), bits),
    }
}

/// What `mean` makes of the measured values, if any was measured.
pub fn average<M: Fn(Vec<u64>) -> u64>(mean: &M, values: &[u64]) -> (r: Option<u64>)
    requires
        forall|given: Vec<u64>| given@.len() > 0 ==> #[trigger] call_requires(*mean, (given,)),
    ensures
        averages(*mean, values@, r),
{
    let mut given: Vec<u64> = Vec::new();
    assert(measured(values@.take(0)) =~= Seq::<u64>::empty()) by {
        reveal(Seq::filter);
    }
    for i in 0..values.len()
        invariant
            given@ == measured(values@.take(i as int)),
    {
        assert(values@.take(i + 1).drop_last() =~= values@.take(i as int));
        proof {
            reveal(Seq::filter);
        }
        if was_measured(values[i]) {
            given.push(values[i]);
        }
        assert(given@ == measured(values@.take(i + 1)));
    }
    assert(values@.take(values@.len() as int) =~= values@);
    if given.len() == 0 {
        None
    } else {
        let ghost handed = given;
        let bits: u64 = mean(given);
        assert(handed@ == measured(values@) && call_ensures(*mean, (handed,), bits));
        Some(bits)
    }
}

/// Records in different stretches of time are in different buckets, and records in
/// the same stretch in the same: where the times are in order, each bucket starts
/// later than the one before it.
pub proof fn law_each_stretch_has_one_bucket(times: Seq<u64>, step: u64, j: int, k: int)
    requires
        step > 0,
        times.len() <= usize::MAX,
        ascending(times),
        0 <= j < k < buckets(times, step).len(),
    ensures
        buckets(times, step)[j].start < buckets(times, step)[k].start,
    decreases times.len(),
{
    let shorter = times.drop_last();
    let before = buckets(shorter, step);
    let all = buckets(times, step);
    let start = start_of(times.last(), step);
    lemma_tiled(shorter, step);
    lemma_gathered(shorter, step);
    if before.len() > 0 {
        let last = before.last();
        assert(before[before.len() - 1] == last);
        let i = last.first as int;
        assert(start_of(shorter[i], step) == last.start);
        lemma_start_of(times[i], step);
        lemma_start_of(times.last(), step);
        lemma_starts_ascend(times[i], times.last(), step);
        if k < before.len() {
            law_each_stretch_has_one_bucket(shorter, step, j, k);
        } else if j < before.len() - 1 {
            law_each_stretch_has_one_bucket(shorter, step, j, before.len() - 1);
        }
    }
}

proof fn lemma_starts_ascend(a: u64, b: u64, step: u64)
    requires
        a <= b,
        step > 0,
    ensures
        start_of(a, step) <= start_of(b, step),
{
    lemma_start_of(a, step);
    lemma_start_of(b, step);
    vstd::arithmetic::div_mod::lemma_div_is_ordered(a as int, b as int, step as int);
    assert(a / step * step <= b / step * step) by (nonlinear_arith)
        requires
            a / step <= b / step,
            step > 0,
    ;
}

/// The width chosen for at most so many points is the least that will do: one
/// sampling interval, or else with one interval less the buckets but one would no
/// longer cover the time from the first record to the last.
pub proof fn law_the_width_is_the_least_that_will_do(span: u64, points: u64, interval: u64)
    requires
        points >= 2,
        interval >= 1,
    ensures
        ({
            let step = step_for(span, points, interval) as int;
            &&& step >= interval
            &&& step == interval || (step - interval) * (points - 1) < span
            &&& span <= (u64::MAX - interval) ==> step * (points - 1) >= span
        }),
{
    let p = (points - 1) as nat;
    let i = interval as nat;
    let least = quotient_up(span as nat, p);
    let intervals = quotient_up(least, i);
    lemma_quotient_up(span as nat, p);
    lemma_quotient_up(least, i);
    let count: nat = if intervals == 0 {
        1
    } else {
        intervals
    };
    let step = step_for(span, points, interval) as int;
    vstd::arithmetic::div_mod::lemma_fundamental_div_mod(span as int, p as int);
    assert(least <= span) by (nonlinear_arith)
        requires
            p >= 1,
            least == (if span as nat % p == 0 { span as nat / p } else { span as nat / p + 1 }),
    ;
    assert(count >= 1);
    assert(count * i >= i) by (nonlinear_arith)
        requires
            count >= 1,
    ;
    if count > 1 {
        // One interval less is less than the least width, which itself is the least
        // that covers the time.
        assert((count - 1) * i < least) by (nonlinear_arith)
            requires
                count == intervals,
                count > 1,
                i >= 1,
                intervals == (if least % i == 0 { least / i } else { least / i + 1 }),
        ;
        assert((least - 1) * p < span) by (nonlinear_arith)
            requires
                p >= 1,
                least >= 1,
                least == (if span as nat % p == 0 { span as nat / p } else { span as nat / p + 1 }),
        ;
        assert((count - 1) * i == count * i - i) by (nonlinear_arith);
        assert((count * i - i) * p < span) by (nonlinear_arith)
            requires
                (least - 1) * p < span,
                (count - 1) * i < least,
                (count - 1) * i == count * i - i,
                p >= 1,
        ;
    }
    assert(count * i >= least) by (nonlinear_arith)
        requires
            count >= intervals,
            intervals * i >= least,
            i >= 1,
    ;
    assert((count * i) * p >= span) by (nonlinear_arith)
        requires
            count * i >= least,
            least * p >= span,
            p >= 1,
    ;
    if count * i <= u64::MAX {
        assert(step == count * i);
        assert(count == 1 ==> count * i == i) by (nonlinear_arith);
        assert(step == interval || (step - interval) * (points - 1) < span);
        assert(step * (points - 1) >= span);
    } else {
        let q = u64::MAX as int / i as int;
        assert(q >= 1 && q * i <= u64::MAX && q * i > u64::MAX - i) by (nonlinear_arith)
            requires
                1 <= i <= u64::MAX,
                q == u64::MAX as int / i as int,
        ;
        assert(step == q * i);
        assert(q * i >= i) by (nonlinear_arith)
            requires
                q >= 1,
        ;
        // What can be counted is less than what would do.
        assert(q < count) by (nonlinear_arith)
            requires
                q * i <= u64::MAX,
                count * i > u64::MAX,
                i >= 1,
        ;
        assert((q * i - i) * p <= (count * i - i) * p) by (nonlinear_arith)
            requires
                q < count,
                p >= 1,
                i >= 1,
        ;
        assert(count > 1);
        assert(least <= span);
        assert((count - 1) * i < least);
        assert((count - 1) * i == count * i - i) by (nonlinear_arith);
        assert(count * i < span + i);
        assert((step - interval) * (points - 1) < span);
    }
}

/// A value was measured if its bits are those of a finite number: if the eleven
/// bits of the exponent aren't all set.
pub proof fn law_what_is_measured(bits: u64)
    ensures
        is_measured(bits) == (bits & 0x7ff0_0000_0000_0000 != 0x7ff0_0000_0000_0000),
{
    assert((bits / 0x10_0000_0000_0000 % 0x800 != 0x7ff) == (bits & 0x7ff0_0000_0000_0000 != 0x7ff0_0000_0000_0000))
        by (bit_vector);
}

/// Values are compared as the numbers whose bits they are: those whose sign bit
/// isn't set by their bits, those whose sign bit is set the other way round, and
/// the latter come first.
pub proof fn law_how_values_compare(a: u64, b: u64)
    ensures
        a < 0x8000_0000_0000_0000 && b < 0x8000_0000_0000_0000 ==> (order(a) < order(b)) == (a < b),
        a >= 0x8000_0000_0000_0000 && b >= 0x8000_0000_0000_0000 ==> (order(a) < order(b)) == (b < a),
        a >= 0x8000_0000_0000_0000 && b < 0x8000_0000_0000_0000 ==> order(a) < order(b),
{
}

/// What goes into a mean is every value that was measured, in order, and no other.
pub proof fn law_what_goes_into_a_mean<M: Fn(Vec<u64>) -> u64>(
    mean: M,
    values: Seq<u64>,
    value: u64,
    average: Option<u64>,
)
    ensures
        measured(values.push(value)) == (if is_measured(value) {
            measured(values).push(value)
        } else {
            measured(values)
        }),
        measured(Seq::<u64>::empty()).len() == 0,
        averages(mean, values, average) && average is Some ==> exists|given: Vec<u64>|
            #[trigger] given@ == measured(values) && given@.len() > 0 && call_ensures(mean, (given,), average->0),
        averages(mean, values, average) ==> average is None == (measured(values).len() == 0),
{
    reveal(Seq::filter);
    assert(values.push(value).drop_last() =~= values);
}

}
