//! The sparkline: samples put into time slots, a score for each slot, and the
//! best of several rows.

use vstd::prelude::*;
use crate::fraction::{is_less, Fraction};
use crate::ping::{
    is_expired, retained, samples_model, PingResult, ResultModel, Sample, SampleModel,
};

verus! {

/// How many slots a sparkline has.
pub const BUCKET_COUNT: usize = 30;

/// The time that one slot covers, in nanoseconds.
pub const BUCKET_SIZE: u64 = 10_000_000_000;

/// The latency in nanoseconds up to which a slot is fully green, unless the
/// user has set another.
pub const GOOD_NS_DEFAULT: u64 = 30_000_000;

/// The largest tolerance: up to here every score is an exact `u128` fraction.
pub const GOOD_NS_MAX: u64 = 300_000_000_000;

pub const NS_PER_MS: u64 = 1_000_000;

/// The latency thresholds. They follow from the tolerance: at or below
/// `good_ns` latency is perfect, at or above 250/30 of it latency is worst.
#[derive(Clone, Copy, Debug, PartialEq, Eq, Structural)]
pub struct Tolerance {
    pub good_ns: u64,
}

impl Tolerance {
    pub open spec fn wf(self) -> bool {
        0 < self.good_ns <= GOOD_NS_MAX
    }

    /// The tolerance before the user sets one.
    pub fn new() -> (r: Self)
        ensures
            r.good_ns == GOOD_NS_DEFAULT,
            r.wf(),
    {
        Tolerance { good_ns: GOOD_NS_DEFAULT }
    }

    /// The good and the bad threshold, in thirds of a nanosecond.
    pub fn thresholds(&self) -> (r: (u128, u128))
        ensures
            r.0 == 3 * self.good_ns,
            r.1 == 25 * self.good_ns,
    {
        (3 * (self.good_ns as u128), 25 * (self.good_ns as u128))
    }
}

/// Set the good threshold. It need not be a whole number of milliseconds, so it
/// is given in nanoseconds; what is not positive sets the default. The bad
/// threshold scales with it.
pub fn set_tolerance_ms(tolerance: &mut Tolerance, good_ns: i64)
    requires
        good_ns <= GOOD_NS_MAX,
    ensures
        final(tolerance).wf(),
        final(tolerance).good_ns == if good_ns > 0 {
            good_ns as int
        } else {
            GOOD_NS_DEFAULT as int
        },
{
    tolerance.good_ns = if good_ns > 0 {
        good_ns as u64
    } else {
        GOOD_NS_DEFAULT
    };
}

/// What happened in one time slot.
#[derive(Clone, Copy, Debug, PartialEq, Eq, Structural)]
pub struct BucketInfo {
    pub samples: u32,
    pub failed: u32,
    /// Worst (max) successful latency observed in this bucket, in nanoseconds.
    pub max_ok_ns: Option<u64>,
}

impl BucketInfo {
    /// The slot in which nothing happened.
    pub open spec fn nothing() -> BucketInfo {
        BucketInfo { samples: 0, failed: 0, max_ok_ns: None }
    }

    pub fn empty() -> (r: Self)
        ensures
            r == BucketInfo::nothing(),
    {
        BucketInfo { samples: 0, failed: 0, max_ok_ns: None }
    }

    /// Of the samples some failed, and the others had a latency.
    pub open spec fn wf(self) -> bool {
        &&& self.failed <= self.samples
        &&& self.max_ok_ns is Some <==> self.failed < self.samples
    }

    pub fn is_empty(&self) -> (r: bool)
        ensures
            r == (self.samples == 0),
    {
        self.samples == 0
    }

    /// The share of the samples that failed; of no samples, none did.
    pub open spec fn loss(self) -> Fraction {
        if self.samples == 0 {
            Fraction { num: 0, den: 1 }
        } else {
            Fraction { num: self.failed as u128, den: self.samples as u128 }
        }
    }

    pub fn loss_rate(&self) -> (r: Fraction)
        ensures
            r == self.loss(),
            r.wf(),
    {
        if self.samples == 0 {
            Fraction { num: 0, den: 1 }
        } else {
            Fraction { num: self.failed as u128, den: self.samples as u128 }
        }
    }
}

impl Default for BucketInfo {
    fn default() -> (r: Self)
        ensures
            r == BucketInfo::nothing(),
    {
        BucketInfo::empty()
    }
}

/// How long before `now` something happened; nothing happens after it.
pub open spec fn age(now: u64, at: u64) -> int {
    if at <= now {
        now - at
    } else {
        0
    }
}

/// The slot of a sample: the last is the most recent. Below 0, the sample is
/// older than the sparkline.
pub open spec fn slot_of(now: u64, at: u64) -> int {
    BUCKET_COUNT - 1 - age(now, at) / (BUCKET_SIZE as int)
}

/// Whether a result says that the probe failed.
pub open spec fn is_failure(r: ResultModel) -> bool {
    r is Timeout || r is Error
}

/// How many probes of a slot came back or failed.
pub open spec fn counted(samples: Seq<SampleModel>, now: u64, slot: int) -> nat
    decreases samples.len(),
{
    if samples.len() == 0 {
        0
    } else {
        let s = samples.last();
        let before = counted(samples.drop_last(), now, slot);
        if slot_of(now, s.at) == slot && !(s.result is Pending) {
            before + 1
        } else {
            before
        }
    }
}

/// How many probes of a slot failed.
pub open spec fn lost(samples: Seq<SampleModel>, now: u64, slot: int) -> nat
    decreases samples.len(),
{
    if samples.len() == 0 {
        0
    } else {
        let s = samples.last();
        let before = lost(samples.drop_last(), now, slot);
        if slot_of(now, s.at) == slot && is_failure(s.result) {
            before + 1
        } else {
            before
        }
    }
}

/// The worst latency of a slot; `None` without a reply.
pub open spec fn worst(samples: Seq<SampleModel>, now: u64, slot: int) -> Option<u64>
    decreases samples.len(),
{
    if samples.len() == 0 {
        None
    } else {
        let s = samples.last();
        let before = worst(samples.drop_last(), now, slot);
        match s.result {
            ResultModel::Reply(ns) if slot_of(now, s.at) == slot => match before {
                Some(p) if p >= ns => Some(p),
                _ => Some(ns),
            },
            _ => before,
        }
    }
}

/// What happened in a slot.
pub open spec fn slot_model(samples: Seq<SampleModel>, now: u64, slot: int) -> BucketInfo {
    BucketInfo {
        samples: counted(samples, now, slot) as u32,
        failed: lost(samples, now, slot) as u32,
        max_ok_ns: worst(samples, now, slot),
    }
}

/// A sparkline row: what happened in each slot.
pub open spec fn row_model(samples: Seq<SampleModel>, now: u64) -> Seq<BucketInfo> {
    Seq::new(BUCKET_COUNT as nat, |i: int| slot_model(samples, now, i))
}

/// A slot counts no more than all samples, and its replies are those that did
/// not fail.
pub proof fn lemma_slot_counts(samples: Seq<SampleModel>, now: u64, slot: int)
    ensures
        lost(samples, now, slot) <= counted(samples, now, slot) <= samples.len(),
        worst(samples, now, slot) is Some <==> lost(samples, now, slot) < counted(
            samples,
            now,
            slot,
        ),
    decreases samples.len(),
{
    if samples.len() > 0 {
        lemma_slot_counts(samples.drop_last(), now, slot);
    }
}

/// Bucket samples into `BUCKET_COUNT` slots. Slot 0 is the oldest, the
/// last is the most recent (left-to-right reads as time advancing).
pub fn bucketize(samples: &[Sample], now: u64) -> (r: Vec<BucketInfo>)
    requires
        samples@.len() <= u32::MAX,
    ensures
        r@ == row_model(samples_model(samples@), now),
        forall|i: int| 0 <= i < r@.len() ==> (#[trigger] r@[i]).wf(),
{
    let ghost model = samples_model(samples@);
    let mut buckets: Vec<BucketInfo> = Vec::new();
    while buckets.len() < BUCKET_COUNT
        invariant
            buckets@.len() <= BUCKET_COUNT,
            forall|i: int|
                0 <= i < buckets@.len() ==> #[trigger] buckets@[i] == slot_model(
                    model.take(0),
                    now,
                    i,
                ),
        decreases BUCKET_COUNT - buckets.len(),
    {
        buckets.push(BucketInfo::empty());
    }
    let mut k: usize = 0;
    while k < samples.len()
        invariant
            k <= samples.len() <= u32::MAX,
            model == samples_model(samples@),
            buckets@.len() == BUCKET_COUNT,
            forall|i: int|
                0 <= i < BUCKET_COUNT ==> #[trigger] buckets@[i] == slot_model(
                    model.take(k as int),
                    now,
                    i,
                ),
        decreases samples.len() - k,
    {
        let s = &samples[k];
        let from_now: u64 = now.saturating_sub(s.at) / BUCKET_SIZE;
        let ghost before = buckets@;
        let ghost upto = model.take(k as int + 1);
        proof {
            assert(upto.last() == s@);
            assert(upto.drop_last() == model.take(k as int));
        }
        if from_now < BUCKET_COUNT as u64 {
            let idx: usize = BUCKET_COUNT - 1 - from_now as usize;
            let mut b: BucketInfo = buckets[idx];
            proof {
                lemma_slot_counts(model.take(k as int), now, idx as int);
            }
            match &s.result {
                PingResult::Reply(ns) => {
                    b.samples = b.samples + 1;
                    b.max_ok_ns = Some(
                        match b.max_ok_ns {
                            Some(p) => if p >= *ns {
                                p
                            } else {
                                *ns
                            },
                            None => *ns,
                        },
                    );
                },
                PingResult::Timeout | PingResult::Error(_) => {
                    b.samples = b.samples + 1;
                    b.failed = b.failed + 1;
                },
                PingResult::Pending => {},
            }
            buckets.set(idx, b);
        }
        assert forall|i: int| 0 <= i < BUCKET_COUNT implies #[trigger] buckets@[i] == slot_model(
            upto,
            now,
            i,
        ) by {
            assert(before[i] == slot_model(model.take(k as int), now, i));
            lemma_slot_counts(model.take(k as int), now, i);
        }
        k += 1;
    }
    assert(model.take(model.len() as int) == model);
    proof {
        assert forall|i: int| 0 <= i < buckets@.len() implies (#[trigger] buckets@[i]).wf() by {
            lemma_slot_counts(model, now, i);
        }
    }
    buckets
}

/// `x` measured from `low`, held between 0 and `high - low`.
pub open spec fn rise(low: int, high: int, x: int) -> int {
    if x <= low {
        0
    } else if x >= high {
        high - low
    } else {
        x - low
    }
}

/// Smoothstep: for `t` the share of the way from `low` to `high` that `x` has
/// come, the number `t * t * (3 - 2 * t)`, written over `(high - low)` cubed.
pub open spec fn smooth(low: int, high: int, x: int) -> Fraction {
    let d = high - low;
    let t = rise(low, high, x);
    Fraction { num: (t * t * (3 * d - 2 * t)) as u128, den: (d * d * d) as u128 }
}

/// The widest span over which smoothstep is an exact `u128` fraction.
pub const SPAN_MAX: u128 = 6_600_000_000_000;

proof fn lemma_cube_fits(d: int, t: int)
    requires
        0 < d <= SPAN_MAX,
        0 <= t <= d,
    ensures
        0 <= t * t * (3 * d - 2 * t) <= d * d * d,
        0 < d * d <= u128::MAX,
        0 < d * d * d <= u128::MAX,
        0 <= t * t <= d * d,
{
    assert(0 < d * d * d <= 6_600_000_000_000 * 6_600_000_000_000 * 6_600_000_000_000)
        by (nonlinear_arith)
        requires
            0 < d <= 6_600_000_000_000,
    {
        assert(0 < d * d <= 6_600_000_000_000 * 6_600_000_000_000);
    }
    assert(0 < d * d <= 6_600_000_000_000 * 6_600_000_000_000) by (nonlinear_arith)
        requires
            0 < d <= 6_600_000_000_000,
    ;
    assert(0 <= t * t <= d * d) by (nonlinear_arith)
        requires
            0 <= t <= d,
    ;
    lemma_smooth_grows(d, t, d);
    assert(d * d * (3 * d - 2 * d) == d * d * d) by (nonlinear_arith);
    assert(0 <= t * t * (3 * d - 2 * t)) by (nonlinear_arith)
        requires
            0 <= t <= d,
    {
        assert(0 <= t * t);
        assert(0 <= 3 * d - 2 * t);
    }
}

/// `t * t * (3 * d - 2 * t)` grows with `t` up to `d`.
proof fn lemma_smooth_grows(d: int, t: int, u: int)
    by (nonlinear_arith)
    requires
        0 <= t <= u <= d,
    ensures
        t * t * (3 * d - 2 * t) <= u * u * (3 * d - 2 * u),
{
    // The difference is (u - t) * (3d(u + t) - 2(u*u + u*t + t*t)).
    let a = u - t;
    let b = 3 * d * (u + t) - 2 * (u * u + u * t + t * t);
    assert(u * u * (3 * d - 2 * u) - t * t * (3 * d - 2 * t) == a * b);
    assert(d * (u + t) >= u * (u + t));
    assert(3 * u * (u + t) - 2 * (u * u + u * t + t * t) == u * u + u * t - 2 * (t * t));
    assert(u * u >= t * t);
    assert(u * t >= t * t);
    assert(b >= 0);
    assert(a * b >= 0);
}

/// Smoothstep of `x` between `low` and `high`.
pub fn smoothstep(low: u128, high: u128, x: u128) -> (r: Fraction)
    requires
        low < high,
        high - low <= SPAN_MAX,
    ensures
        r == smooth(low as int, high as int, x as int),
        r.wf(),
        r.num <= r.den,
{
    let d: u128 = high - low;
    let t: u128 = if x <= low {
        0
    } else if x >= high {
        d
    } else {
        x - low
    };
    proof {
        lemma_cube_fits(d as int, t as int);
        let (di, ti) = (d as int, t as int);
        assert(ti * ti <= ti * ti * (3 * di - 2 * ti) || ti == 0) by (nonlinear_arith)
            requires
                0 <= ti <= di,
                di > 0,
        {
            if ti > 0 {
                assert(3 * di - 2 * ti >= 1);
                assert(ti * ti * (3 * di - 2 * ti) >= ti * ti * 1);
            }
        }
    }
    Fraction { num: t * t * (3 * d - 2 * t), den: d * d * d }
}

/// The score of the latency alone: smoothstep from the good to the bad
/// threshold (both in thirds of a nanosecond); without a reply, the worst.
pub open spec fn latency_score(tolerance: Tolerance, max_ok_ns: Option<u64>) -> Fraction {
    match max_ok_ns {
        Some(ns) => smooth(3 * tolerance.good_ns, 25 * tolerance.good_ns, 3 * ns),
        None => Fraction { num: 1, den: 1 },
    }
}

/// The worse of the latency score and the loss rate.
pub open spec fn score(b: BucketInfo, tolerance: Tolerance) -> Fraction {
    let latency = latency_score(tolerance, b.max_ok_ns);
    if latency.less(b.loss()) {
        b.loss()
    } else {
        latency
    }
}

/// Maps a bucket to a "badness" score from 0 to 1, or `None` for an empty
/// bucket. 0 = perfect (low latency, no loss); 1 = worst (high latency or
/// total loss). Score is the worse of two independent components:
/// latency (mapped via smoothstep between the thresholds) and packet loss
/// rate (linear).
pub fn badness(b: &BucketInfo, tolerance: &Tolerance) -> (r: Option<Fraction>)
    requires
        tolerance.wf(),
    ensures
        match r {
            Some(s) => b.samples > 0 && s == score(*b, *tolerance) && s.wf(),
            None => b.samples == 0,
        },
{
    if b.samples == 0 {
        return None;
    }
    let (good, bad) = tolerance.thresholds();
    let latency = match b.max_ok_ns {
        Some(ns) => smoothstep(good, bad, 3 * (ns as u128)),
        None => Fraction { num: 1, den: 1 },
    };
    let loss = b.loss_rate();
    if is_less(latency, loss) {
        Some(loss)
    } else {
        Some(latency)
    }
}

/// The length of the shortest row; 0 without rows.
pub open spec fn shortest(rows: Seq<Seq<BucketInfo>>) -> nat
    decreases rows.len(),
{
    if rows.len() == 0 {
        0
    } else if rows.len() == 1 {
        rows[0].len()
    } else {
        let before = shortest(rows.drop_last());
        if rows.last().len() < before {
            rows.last().len()
        } else {
            before
        }
    }
}

/// Whether row `k` is the best at slot `i`: it is not empty there, no row that
/// is not empty scores lower, and none before it scores as low.
pub open spec fn best_row(
    rows: Seq<Seq<BucketInfo>>,
    i: int,
    tolerance: Tolerance,
    k: int,
) -> bool {
    &&& 0 <= k < rows.len()
    &&& rows[k][i].samples > 0
    &&& forall|j: int|
        0 <= j < rows.len() && (#[trigger] rows[j])[i].samples > 0 ==> score(
            rows[k][i],
            tolerance,
        ).at_most(score(rows[j][i], tolerance))
    &&& forall|j: int|
        0 <= j < k && (#[trigger] rows[j])[i].samples > 0 ==> score(rows[k][i], tolerance).less(
            score(rows[j][i], tolerance),
        )
}

/// Whether every row is empty at slot `i`.
pub open spec fn all_empty(rows: Seq<Seq<BucketInfo>>, i: int) -> bool {
    forall|j: int| 0 <= j < rows.len() ==> (#[trigger] rows[j])[i].samples == 0
}

/// Whether `b` is the best of the rows at slot `i`.
pub open spec fn is_best(
    rows: Seq<Seq<BucketInfo>>,
    i: int,
    tolerance: Tolerance,
    b: BucketInfo,
) -> bool {
    if all_empty(rows, i) {
        b == BucketInfo::nothing()
    } else {
        exists|k: int| #[trigger] best_row(rows, i, tolerance, k) && b == rows[k][i]
    }
}

/// The values of a list of rows.
pub open spec fn rows_model(rows: Seq<Vec<BucketInfo>>) -> Seq<Seq<BucketInfo>> {
    rows.map_values(|r: Vec<BucketInfo>| r@)
}

/// The best of the rows, slot by slot.
pub open spec fn best_model(rows: Seq<Seq<BucketInfo>>, tolerance: Tolerance) -> Seq<BucketInfo> {
    Seq::new(shortest(rows), |i: int| choose|b: BucketInfo| is_best(rows, i, tolerance, b))
}

/// The best of the rows at slot `i`.
fn best_at(rows: &[Vec<BucketInfo>], i: usize, tolerance: &Tolerance) -> (r: BucketInfo)
    requires
        tolerance.wf(),
        forall|j: int| 0 <= j < rows@.len() ==> i < (#[trigger] rows@[j])@.len(),
    ensures
        is_best(rows_model(rows@), i as int, *tolerance, r),
{
    let ghost model = rows_model(rows@);
    let mut best: Option<(BucketInfo, Fraction)> = None;
    let ghost mut at: int = 0;
    let mut j: usize = 0;
    while j < rows.len()
        invariant
            j <= rows.len(),
            tolerance.wf(),
            model == rows_model(rows@),
            forall|j: int| 0 <= j < rows@.len() ==> i < (#[trigger] rows@[j])@.len(),
            match best {
                None => forall|m: int| 0 <= m < j ==> (#[trigger] model[m])[i as int].samples == 0,
                Some((b, s)) => {
                    &&& 0 <= at < j
                    &&& b == model[at][i as int]
                    &&& b.samples > 0
                    &&& s == score(b, *tolerance)
                    &&& s.wf()
                    &&& forall|m: int|
                        0 <= m < j && (#[trigger] model[m])[i as int].samples > 0 ==> s.at_most(
                            score(model[m][i as int], *tolerance),
                        )
                    &&& forall|m: int|
                        0 <= m < at && (#[trigger] model[m])[i as int].samples > 0 ==> s.less(
                            score(model[m][i as int], *tolerance),
                        )
                },
            },
        decreases rows.len() - j,
    {
        let b: BucketInfo = rows[j][i];
        assert(model[j as int][i as int] == b);
        if let Some(s) = badness(&b, tolerance) {
            let better = match &best {
                None => true,
                Some((_, p)) => is_less(s, *p),
            };
            if better {
                proof {
                    assert forall|m: int|
                        0 <= m < j && (#[trigger] model[m])[i as int].samples > 0 implies s.less(
                        score(model[m][i as int], *tolerance),
                    ) by {
                        let other = score(model[m][i as int], *tolerance);
                        lemma_score_wf(model[m][i as int], *tolerance);
                        lemma_less_then_at_most(s, (best->0).1, other);
                    }
                    at = j as int;
                }
                best = Some((b, s));
            }
        }
        j += 1;
    }
    match best {
        None => BucketInfo::empty(),
        Some((b, _)) => {
            assert(best_row(model, i as int, *tolerance, at));
            assert(model[at][i as int].samples > 0);
            b
        },
    }
}

/// Aggregate multiple bucketized rows with best-of-N per slot, scored by
/// `badness`. Empty buckets are ignored; if every row is empty at slot i,
/// the result is empty there.
pub fn best_of(rows: &[Vec<BucketInfo>], tolerance: &Tolerance) -> (r: Vec<BucketInfo>)
    requires
        tolerance.wf(),
    ensures
        r@ == best_model(rows_model(rows@), *tolerance),
        r@.len() == shortest(rows_model(rows@)),
        forall|i: int|
            0 <= i < r@.len() ==> is_best(rows_model(rows@), i, *tolerance, #[trigger] r@[i]),
{
    let ghost model = rows_model(rows@);
    let mut len: usize = 0;
    let mut k: usize = 0;
    while k < rows.len()
        invariant
            k <= rows.len(),
            model == rows_model(rows@),
            len == shortest(model.take(k as int)),
            forall|j: int| 0 <= j < k ==> len <= (#[trigger] rows@[j])@.len(),
        decreases rows.len() - k,
    {
        assert(model.take(k as int + 1).drop_last() == model.take(k as int));
        assert(model[k as int] == rows@[k as int]@);
        if k == 0 || rows[k].len() < len {
            len = rows[k].len();
        }
        k += 1;
    }
    assert(model.take(model.len() as int) == model);
    let mut r: Vec<BucketInfo> = Vec::new();
    while r.len() < len
        invariant
            r@.len() <= len,
            tolerance.wf(),
            model == rows_model(rows@),
            forall|j: int| 0 <= j < rows@.len() ==> len <= (#[trigger] rows@[j])@.len(),
            forall|i: int| 0 <= i < r@.len() ==> is_best(model, i, *tolerance, #[trigger] r@[i]),
        decreases len - r.len(),
    {
        let i: usize = r.len();
        let b = best_at(rows, i, tolerance);
        r.push(b);
    }
    proof {
        let best = best_model(model, *tolerance);
        assert forall|i: int| 0 <= i < r@.len() implies r@[i] == #[trigger] best[i] by {
            assert(is_best(model, i, *tolerance, r@[i]));
            law_best_is_unique(model, i, *tolerance, r@[i], best[i]);
        }
        assert(r@ =~= best);
    }
    r
}

/// A score is a number.
pub proof fn lemma_score_wf(b: BucketInfo, tolerance: Tolerance)
    requires
        tolerance.wf(),
    ensures
        score(b, tolerance).wf(),
        latency_score(tolerance, b.max_ok_ns).wf(),
        latency_score(tolerance, b.max_ok_ns).num <= latency_score(tolerance, b.max_ok_ns).den,
{
    if let Some(ns) = b.max_ok_ns {
        let d = 22 * tolerance.good_ns;
        lemma_cube_fits(d, rise(3 * tolerance.good_ns, 25 * tolerance.good_ns, 3 * ns));
    }
}

proof fn lemma_less_then_at_most(a: Fraction, b: Fraction, c: Fraction)
    requires
        a.wf(),
        b.wf(),
        c.wf(),
        a.less(b),
        b.at_most(c),
    ensures
        a.less(c),
{
    let (n1, d1, n2, d2, n3, d3) = (
        a.num as int,
        a.den as int,
        b.num as int,
        b.den as int,
        c.num as int,
        c.den as int,
    );
    assert(n1 * d3 < n3 * d1) by (nonlinear_arith)
        requires
            n1 * d2 < n2 * d1,
            n2 * d3 <= n3 * d2,
            d1 > 0,
            d2 > 0,
            d3 > 0,
            n1 >= 0,
            n2 >= 0,
            n3 >= 0,
    {
        assert(n1 * d2 * d3 < n2 * d1 * d3);
        assert(n2 * d3 * d1 <= n3 * d2 * d1);
        assert((n1 * d3) * d2 < (n3 * d1) * d2);
    }
}

/// A score lies between 0 and 1.
pub proof fn law_score_is_between_zero_and_one(b: BucketInfo, tolerance: Tolerance)
    requires
        tolerance.wf(),
        b.wf(),
    ensures
        score(b, tolerance).wf(),
        score(b, tolerance).num <= score(b, tolerance).den,
{
    lemma_score_wf(b, tolerance);
}

/// The score is 0 exactly when nothing was lost and the latency is within the
/// good threshold.
pub proof fn law_score_zero_means_fast_and_clean(b: BucketInfo, tolerance: Tolerance)
    requires
        tolerance.wf(),
        b.wf(),
        b.samples > 0,
    ensures
        score(b, tolerance).num == 0 <==> b.failed == 0 && b.max_ok_ns is Some && b.max_ok_ns->0
            <= tolerance.good_ns,
{
    lemma_score_wf(b, tolerance);
    let latency = latency_score(tolerance, b.max_ok_ns);
    let loss = b.loss();
    let (n, d, f, m) = (
        latency.num as int,
        latency.den as int,
        loss.num as int,
        loss.den as int,
    );
    assert(latency.less(loss) ==> f > 0) by (nonlinear_arith)
        requires
            latency.less(loss) == (n * m < f * d),
            n >= 0,
            m > 0,
            d > 0,
            f >= 0,
    ;
    assert(n == 0 && f > 0 ==> latency.less(loss)) by (nonlinear_arith)
        requires
            latency.less(loss) == (n * m < f * d),
            m > 0,
            d > 0,
            f >= 0,
    ;
    if let Some(ns) = b.max_ok_ns {
        let w = 22 * tolerance.good_ns;
        let t = rise(3 * tolerance.good_ns, 25 * tolerance.good_ns, 3 * ns);
        lemma_cube_fits(w, t);
        assert(t * t * (3 * w - 2 * t) == 0 <==> t == 0) by (nonlinear_arith)
            requires
                0 <= t <= w,
                w > 0,
        {
            if t > 0 {
                assert(t * t > 0);
                assert(t * t * (3 * w - 2 * t) > 0);
            }
        }
    }
}

/// The score is 1 when every probe failed, or when a latency reached the bad
/// threshold.
pub proof fn law_score_is_one_at_the_worst(b: BucketInfo, tolerance: Tolerance)
    requires
        tolerance.wf(),
        b.wf(),
        b.samples > 0,
        b.failed == b.samples || (b.max_ok_ns is Some && 3 * b.max_ok_ns->0 >= 25
            * tolerance.good_ns),
    ensures
        score(b, tolerance).num == score(b, tolerance).den,
{
    lemma_score_wf(b, tolerance);
    let latency = latency_score(tolerance, b.max_ok_ns);
    let loss = b.loss();
    if let Some(ns) = b.max_ok_ns {
        let w = 22 * tolerance.good_ns;
        lemma_cube_fits(w, w);
        assert(w * w * (3 * w - 2 * w) == w * w * w) by (nonlinear_arith);
    }
    assert(latency.num == latency.den);
    let (n, f, m) = (latency.num as int, loss.num as int, loss.den as int);
    assert(n * m >= f * n) by (nonlinear_arith)
        requires
            n >= 0,
            f <= m,
    ;
}

proof fn lemma_smooth_order(d: int, t: int, e: int, u: int)
    requires
        0 < d <= SPAN_MAX,
        0 < e <= SPAN_MAX,
        0 <= t <= d,
        0 <= u <= e,
        t * e <= u * d,
    ensures
        (t * t * (3 * d - 2 * t)) * (e * e * e) <= (u * u * (3 * e - 2 * u)) * (d * d * d),
{
    let (x, y, z) = (t * e, u * d, d * e);
    assert(0 <= x && y <= z) by (nonlinear_arith)
        requires
            0 <= t,
            0 < e,
            u <= e,
            0 < d,
            x == t * e,
            y == u * d,
            z == d * e,
    ;
    lemma_smooth_grows(z, x, y);
    assert(x * x * (3 * z - 2 * x) == (t * t * (3 * d - 2 * t)) * (e * e * e)) by (nonlinear_arith)
        requires
            x == t * e,
            z == d * e,
    ;
    assert(y * y * (3 * z - 2 * y) == (u * u * (3 * e - 2 * u)) * (d * d * d)) by (nonlinear_arith)
        requires
            y == u * d,
            z == d * e,
    ;
}

/// Whether the latency `a` is no worse than `b`; no reply is the worst.
pub open spec fn latency_at_most(a: Option<u64>, b: Option<u64>) -> bool {
    match (a, b) {
        (Some(x), Some(y)) => x <= y,
        (Some(_), None) => true,
        (None, Some(_)) => false,
        (None, None) => true,
    }
}

proof fn lemma_latency_order(low: Tolerance, a: Option<u64>, high: Tolerance, b: Option<u64>)
    requires
        low.wf(),
        high.wf(),
        high.good_ns <= low.good_ns,
        latency_at_most(a, b),
    ensures
        latency_score(low, a).at_most(latency_score(high, b)),
{
    if let Some(x) = a {
        let d = 22 * low.good_ns;
        let t = rise(3 * low.good_ns, 25 * low.good_ns, 3 * x);
        lemma_cube_fits(d, t);
        let p = latency_score(low, a);
        assert(p.num == t * t * (3 * d - 2 * t) && p.den == d * d * d);
        if let Some(y) = b {
            let e = 22 * high.good_ns;
            let u = rise(3 * high.good_ns, 25 * high.good_ns, 3 * y);
            lemma_cube_fits(e, u);
            let (g, h) = (low.good_ns as int, high.good_ns as int);
            assert(t * e <= u * d) by (nonlinear_arith)
                requires
                    d == 22 * g,
                    e == 22 * h,
                    0 < h <= g,
                    0 <= x <= y,
                    t == rise(3 * g, 25 * g, 3 * x),
                    u == rise(3 * h, 25 * h, 3 * y),
            {
                if 3 * x <= 3 * g {
                    assert(t == 0);
                } else if 3 * y >= 25 * h {
                    assert(u == e);
                    assert(t <= d);
                } else {
                    assert(t == 3 * x - 3 * g);
                    assert(u == 3 * y - 3 * h);
                    assert(x * h <= y * g);
                }
            }
            lemma_smooth_order(d, t, e, u);
            let q = latency_score(high, b);
            assert(q.num == u * u * (3 * e - 2 * u) && q.den == e * e * e);
            assert(p.num * q.den <= q.num * p.den);
        } else {
            assert(p.num * 1 <= 1 * p.den);
        }
    } else {
        assert(b is None);
    }
}

proof fn lemma_score_order(a: BucketInfo, low: Tolerance, b: BucketInfo, high: Tolerance)
    requires
        low.wf(),
        high.wf(),
        latency_score(low, a.max_ok_ns).at_most(latency_score(high, b.max_ok_ns)),
        a.loss().at_most(b.loss()),
    ensures
        score(a, low).at_most(score(b, high)),
{
    lemma_score_wf(a, low);
    lemma_score_wf(b, high);
    let (p, q) = (latency_score(low, a.max_ok_ns), a.loss());
    let (r, s) = (latency_score(high, b.max_ok_ns), b.loss());
    crate::fraction::law_less_is_an_order(p, r, s);
    crate::fraction::law_less_is_an_order(q, s, r);
    crate::fraction::law_less_is_an_order(r, s, r);
}

/// More latency, or a higher loss rate, never lowers the score.
pub proof fn law_score_grows_with_latency_and_loss(
    a: BucketInfo,
    b: BucketInfo,
    tolerance: Tolerance,
)
    requires
        tolerance.wf(),
        latency_at_most(a.max_ok_ns, b.max_ok_ns),
        a.loss().at_most(b.loss()),
    ensures
        score(a, tolerance).at_most(score(b, tolerance)),
{
    lemma_latency_order(tolerance, a.max_ok_ns, tolerance, b.max_ok_ns);
    lemma_score_order(a, tolerance, b, tolerance);
}

/// A higher tolerance never raises a score.
pub proof fn law_higher_tolerance_is_more_tolerant(
    b: BucketInfo,
    strict: Tolerance,
    tolerant: Tolerance,
)
    requires
        strict.wf(),
        tolerant.wf(),
        strict.good_ns <= tolerant.good_ns,
    ensures
        score(b, tolerant).at_most(score(b, strict)),
{
    lemma_latency_order(tolerant, b.max_ok_ns, strict, b.max_ok_ns);
    crate::fraction::law_less_is_an_order(b.loss(), b.loss(), b.loss());
    lemma_score_order(b, tolerant, b, strict);
}

/// The bad threshold scales with the good one: latencies that stand in the same
/// ratio to their tolerances have the same latency score.
pub proof fn law_thresholds_scale_together(a: Tolerance, x: u64, b: Tolerance, y: u64)
    requires
        a.wf(),
        b.wf(),
        x * b.good_ns == y * a.good_ns,
    ensures
        latency_score(a, Some(x)).same(latency_score(b, Some(y))),
{
    let (g, h) = (a.good_ns as int, b.good_ns as int);
    let (v, w) = (x as int, y as int);
    let d = 22 * g;
    let t = rise(3 * g, 25 * g, 3 * v);
    let e = 22 * h;
    let u = rise(3 * h, 25 * h, 3 * w);
    assert((v <= g) == (w <= h)) by (nonlinear_arith)
        requires
            0 < g,
            0 < h,
            v * h == w * g,
    ;
    assert((3 * v >= 25 * g) == (3 * w >= 25 * h)) by (nonlinear_arith)
        requires
            0 < g,
            0 < h,
            v * h == w * g,
    ;
    assert(t * e == u * d) by {
        if v <= g {
        } else if 3 * v >= 25 * g {
            assert(d * e == e * d) by (nonlinear_arith);
        } else {
            assert((3 * v - 3 * g) * (22 * h) == (3 * w - 3 * h) * (22 * g)) by (nonlinear_arith)
                requires
                    v * h == w * g,
            ;
        }
    }
    lemma_cube_fits(d, t);
    lemma_cube_fits(e, u);
    lemma_smooth_order(d, t, e, u);
    lemma_smooth_order(e, u, d, t);
}

/// The samples that came back or failed.
pub open spec fn settled(samples: Seq<SampleModel>) -> Seq<SampleModel> {
    samples.filter(|s: SampleModel| !(s.result is Pending))
}

/// Pending samples change nothing.
proof fn lemma_settled(samples: Seq<SampleModel>, now: u64, slot: int)
    ensures
        slot_model(settled(samples), now, slot) == slot_model(samples, now, slot),
        counted(settled(samples), now, slot) == counted(samples, now, slot),
        lost(settled(samples), now, slot) == lost(samples, now, slot),
    decreases samples.len(),
{
    reveal(Seq::filter);
    if samples.len() > 0 {
        let before = samples.drop_last();
        lemma_settled(before, now, slot);
        if !(samples.last().result is Pending) {
            assert(settled(samples).drop_last() =~= settled(before));
        }
    }
}

/// A sample may as well come last.
proof fn lemma_moved_last(samples: Seq<SampleModel>, k: int, now: u64, slot: int)
    requires
        0 <= k < samples.len(),
    ensures
        ({
            let moved = samples.remove(k).push(samples[k]);
            &&& counted(moved, now, slot) == counted(samples, now, slot)
            &&& lost(moved, now, slot) == lost(samples, now, slot)
            &&& worst(moved, now, slot) == worst(samples, now, slot)
        }),
    decreases samples.len(),
{
    reveal_with_fuel(counted, 3);
    reveal_with_fuel(lost, 3);
    reveal_with_fuel(worst, 3);
    let moved = samples.remove(k).push(samples[k]);
    assert(moved.drop_last() =~= samples.remove(k));
    if k == samples.len() - 1 {
        assert(moved =~= samples);
    } else {
        let before = samples.drop_last();
        let rest = before.remove(k);
        lemma_moved_last(before, k, now, slot);
        assert(rest.push(before[k]).drop_last() =~= rest);
        assert(samples.remove(k).drop_last() =~= rest);
        assert(samples.remove(k).last() == samples.last());
    }
}

proof fn lemma_any_order(a: Seq<SampleModel>, b: Seq<SampleModel>, now: u64, slot: int)
    requires
        a.to_multiset() == b.to_multiset(),
    ensures
        counted(a, now, slot) == counted(b, now, slot),
        lost(a, now, slot) == lost(b, now, slot),
        worst(a, now, slot) == worst(b, now, slot),
    decreases a.len(),
{
    broadcast use vstd::seq_lib::group_to_multiset_ensures;

    assert(a.len() == a.to_multiset().len());
    assert(b.len() == b.to_multiset().len());
    if a.len() > 0 {
        let x = a.last();
        assert(a.contains(x)) by {
            assert(a[a.len() - 1] == x);
        }
        assert(b.to_multiset().count(x) > 0);
        assert(b.contains(x));
        let k = choose|k: int| 0 <= k < b.len() && b[k] == x;
        let rest = b.remove(k);
        assert(a.drop_last() =~= a.remove(a.len() - 1));
        assert(rest.to_multiset() =~= a.drop_last().to_multiset());
        lemma_any_order(a.drop_last(), rest, now, slot);
        lemma_moved_last(b, k, now, slot);
        assert(rest.push(x).drop_last() =~= rest);
    }
}

/// Neither the order of the samples nor those that are still pending matter: a
/// row depends only on which results came, and how often.
pub proof fn law_order_and_pending_do_not_matter(
    a: Seq<SampleModel>,
    b: Seq<SampleModel>,
    now: u64,
)
    requires
        settled(a).to_multiset() == settled(b).to_multiset(),
    ensures
        row_model(a, now) == row_model(b, now),
{
    assert forall|i: int| 0 <= i < BUCKET_COUNT implies slot_model(a, now, i) == slot_model(
        b,
        now,
        i,
    ) by {
        lemma_settled(a, now, i);
        lemma_settled(b, now, i);
        lemma_any_order(settled(a), settled(b), now, i);
    }
    assert(row_model(a, now) =~= row_model(b, now));
}

/// A slot that only pending samples reach is empty.
pub proof fn law_pending_leaves_a_slot_empty(samples: Seq<SampleModel>, now: u64, slot: int)
    requires
        forall|i: int|
            0 <= i < samples.len() && slot_of(now, (#[trigger] samples[i]).at) == slot
                ==> samples[i].result is Pending,
    ensures
        slot_model(samples, now, slot) == BucketInfo::nothing(),
    decreases samples.len(),
{
    if samples.len() > 0 {
        let before = samples.drop_last();
        assert(samples.last() == samples[samples.len() - 1]);
        assert forall|i: int|
            0 <= i < before.len() && slot_of(now, (#[trigger] before[i]).at)
                == slot implies before[i].result is Pending by {
            assert(before[i] == samples[i]);
        }
        law_pending_leaves_a_slot_empty(before, now, slot);
    }
}

/// A new sample changes no slot but its own; one that is still pending, or is
/// older than the sparkline, changes none.
pub proof fn law_sample_touches_only_its_slot(
    samples: Seq<SampleModel>,
    s: SampleModel,
    now: u64,
    slot: int,
)
    requires
        slot != slot_of(now, s.at) || s.result is Pending,
    ensures
        slot_model(samples.push(s), now, slot) == slot_model(samples, now, slot),
{
    assert(samples.push(s).drop_last() == samples);
}

/// A slot shows the worst of its replies: no reply in it was slower, and one
/// was as slow.
pub proof fn law_slot_shows_the_worst(samples: Seq<SampleModel>, now: u64, slot: int)
    ensures
        forall|i: int|
            0 <= i < samples.len() && slot_of(now, (#[trigger] samples[i]).at) == slot
                && samples[i].result is Reply ==> worst(samples, now, slot) is Some
                && samples[i].result->Reply_0 <= worst(samples, now, slot)->0,
        worst(samples, now, slot) is Some ==> exists|i: int|
            0 <= i < samples.len() && slot_of(now, (#[trigger] samples[i]).at) == slot
                && samples[i].result == ResultModel::Reply(worst(samples, now, slot)->0),
    decreases samples.len(),
{
    if samples.len() > 0 {
        let before = samples.drop_last();
        law_slot_shows_the_worst(before, now, slot);
        assert forall|i: int|
            0 <= i < samples.len() && slot_of(now, (#[trigger] samples[i]).at) == slot
                && samples[i].result is Reply implies worst(samples, now, slot) is Some
            && samples[i].result->Reply_0 <= worst(samples, now, slot)->0 by {
            if i < before.len() {
                assert(before[i] == samples[i]);
            }
        }
        if worst(samples, now, slot) is Some {
            if worst(samples, now, slot) == worst(before, now, slot) {
                let i = choose|i: int|
                    0 <= i < before.len() && slot_of(now, (#[trigger] before[i]).at) == slot
                        && before[i].result == ResultModel::Reply(worst(before, now, slot)->0);
                assert(samples[i] == before[i]);
            } else {
                assert(samples[samples.len() - 1] == samples.last());
            }
        }
    }
}

/// Best-of-N promises "at least this good": where any row has data the
/// aggregate has data, and it scores no worse than that row.
pub proof fn law_best_is_no_worse_than_any(
    rows: Seq<Seq<BucketInfo>>,
    i: int,
    tolerance: Tolerance,
    b: BucketInfo,
    j: int,
)
    requires
        is_best(rows, i, tolerance, b),
        0 <= j < rows.len(),
        rows[j][i].samples > 0,
    ensures
        b.samples > 0,
        score(b, tolerance).at_most(score(rows[j][i], tolerance)),
{
}

/// The aggregate is empty only where every row is.
pub proof fn law_best_is_empty_only_without_data(
    rows: Seq<Seq<BucketInfo>>,
    i: int,
    tolerance: Tolerance,
    b: BucketInfo,
)
    requires
        is_best(rows, i, tolerance, b),
    ensures
        b.samples == 0 <==> all_empty(rows, i),
{
}

/// The aggregate is as bad as `limit` only when all rows with data are: one
/// slow target does not degrade it, all of them together do.
pub proof fn law_best_degrades_only_with_all(
    rows: Seq<Seq<BucketInfo>>,
    i: int,
    tolerance: Tolerance,
    b: BucketInfo,
    limit: Fraction,
)
    requires
        tolerance.wf(),
        limit.wf(),
        is_best(rows, i, tolerance, b),
        !all_empty(rows, i),
    ensures
        limit.at_most(score(b, tolerance)) <==> (forall|j: int|
            0 <= j < rows.len() && (#[trigger] rows[j])[i].samples > 0 ==> limit.at_most(
                score(rows[j][i], tolerance),
            )),
{
    let k = choose|k: int| #[trigger] best_row(rows, i, tolerance, k) && b == rows[k][i];
    if limit.at_most(score(b, tolerance)) {
        assert forall|j: int|
            0 <= j < rows.len() && (#[trigger] rows[j])[i].samples > 0 implies limit.at_most(
            score(rows[j][i], tolerance),
        ) by {
            lemma_score_wf(b, tolerance);
            lemma_score_wf(rows[j][i], tolerance);
            crate::fraction::law_less_is_an_order(
                limit,
                score(b, tolerance),
                score(rows[j][i], tolerance),
            );
        }
    }
}

/// There is one best bucket: of equal scores the first row's is taken.
pub proof fn law_best_is_unique(
    rows: Seq<Seq<BucketInfo>>,
    i: int,
    tolerance: Tolerance,
    a: BucketInfo,
    b: BucketInfo,
)
    requires
        is_best(rows, i, tolerance, a),
        is_best(rows, i, tolerance, b),
    ensures
        a == b,
{
    if !all_empty(rows, i) {
        let k = choose|k: int| #[trigger] best_row(rows, i, tolerance, k) && a == rows[k][i];
        let m = choose|m: int| #[trigger] best_row(rows, i, tolerance, m) && b == rows[m][i];
        if k < m {
            assert(rows[k][i].samples > 0);
        } else if m < k {
            assert(rows[m][i].samples > 0);
        }
    }
}

/// The best of a single row is that row.
pub proof fn law_best_of_one_row(row: Seq<BucketInfo>, i: int, tolerance: Tolerance, b: BucketInfo)
    requires
        row[i].wf(),
        is_best(seq![row], i, tolerance, b),
    ensures
        b == row[i],
{
    assert(seq![row][0] == row);
}

proof fn lemma_expired_front(samples: Seq<SampleModel>, now: u64, slot: int)
    requires
        samples.len() > 0,
        slot_of(now, samples[0].at) != slot,
    ensures
        slot_model(samples, now, slot) == slot_model(samples.drop_first(), now, slot),
        counted(samples, now, slot) == counted(samples.drop_first(), now, slot),
        lost(samples, now, slot) == lost(samples.drop_first(), now, slot),
    decreases samples.len(),
{
    let rest = samples.drop_first();
    if samples.len() == 1 {
        assert(samples.drop_last() =~= rest);
    } else {
        lemma_expired_front(samples.drop_last(), now, slot);
        assert(samples.drop_last().drop_first() =~= rest.drop_last());
        assert(rest.last() == samples.last());
    }
}

/// Evicting samples loses nothing that a sparkline shows: what was too old at
/// the time `at` is not part of any row drawn then or later.
pub proof fn law_eviction_is_invisible(samples: Seq<SampleModel>, at: u64, now: u64)
    requires
        at <= now,
    ensures
        row_model(retained(samples, at), now) == row_model(samples, now),
    decreases samples.len(),
{
    if samples.len() > 0 && is_expired(samples[0], at) {
        law_eviction_is_invisible(samples.drop_first(), at, now);
        assert(slot_of(now, samples[0].at) < 0);
        assert forall|i: int| 0 <= i < BUCKET_COUNT implies slot_model(samples, now, i)
            == slot_model(samples.drop_first(), now, i) by {
            lemma_expired_front(samples, now, i);
        }
        assert(row_model(samples, now) =~= row_model(samples.drop_first(), now));
    }
}

/// How many times 10 seconds ago something happened.
proof fn lemma_slot_by_age(now: u64, at: u64, k: int)
    ensures
        slot_of(now, at) == 29 - k <==> 10_000_000_000 * k <= (if at <= now {
            now - at
        } else {
            0
        }) < 10_000_000_000 * (k + 1),
{
    let a: int = if at <= now {
        now - at
    } else {
        0
    };
    vstd::arithmetic::div_mod::lemma_fundamental_div_mod(a, 10_000_000_000);
    assert(slot_of(now, at) == 29 - a / 10_000_000_000);
}

proof fn lemma_counted_is_filtered(samples: Seq<SampleModel>, now: u64, k: int)
    ensures
        counted(samples, now, 29 - k) == samples.filter(
            |s: SampleModel|
                !(s.result is Pending) && 10_000_000_000 * k <= (if s.at <= now {
                    now - s.at
                } else {
                    0
                }) < 10_000_000_000 * (k + 1),
        ).len(),
        lost(samples, now, 29 - k) == samples.filter(
            |s: SampleModel|
                (s.result is Timeout || s.result is Error) && 10_000_000_000 * k <= (if s.at <= now {
                    now - s.at
                } else {
                    0
                }) < 10_000_000_000 * (k + 1),
        ).len(),
    decreases samples.len(),
{
    reveal(Seq::filter);
    if samples.len() > 0 {
        lemma_counted_is_filtered(samples.drop_last(), now, k);
        lemma_slot_by_age(now, samples.last().at, k);
    }
}

/// A sparkline has 30 slots of 10 seconds, the last the most recent. Each slot
/// counts every sample of its time that is not pending, and as failed every one
/// that timed out or failed; and it holds the slowest of its replies.
pub proof fn law_every_result_counts_in_the_slot_of_its_age(
    samples: Seq<SampleModel>,
    now: u64,
    k: int,
)
    requires
        samples.len() <= u32::MAX,
        0 <= k < 30,
    ensures
        row_model(samples, now).len() == 30,
        ({
            let b = row_model(samples, now)[29 - k];
            let of_slot = |s: SampleModel|
                10_000_000_000 * k <= (if s.at <= now {
                    now - s.at
                } else {
                    0
                }) < 10_000_000_000 * (k + 1);
            &&& b.samples == samples.filter(
                |s: SampleModel|
                    !(s.result is Pending) && 10_000_000_000 * k <= (if s.at <= now {
                        now - s.at
                    } else {
                        0
                    }) < 10_000_000_000 * (k + 1),
            ).len()
            &&& b.failed == samples.filter(
                |s: SampleModel|
                    (s.result is Timeout || s.result is Error) && 10_000_000_000 * k <= (if s.at
                        <= now {
                        now - s.at
                    } else {
                        0
                    }) < 10_000_000_000 * (k + 1),
            ).len()
            &&& forall|i: int|
                0 <= i < samples.len() && (#[trigger] samples[i]).result is Reply && of_slot(
                    samples[i],
                ) ==> b.max_ok_ns is Some && samples[i].result->Reply_0 <= b.max_ok_ns->0
            &&& b.max_ok_ns is Some ==> exists|i: int|
                0 <= i < samples.len() && of_slot(#[trigger] samples[i]) && samples[i].result
                    == ResultModel::Reply(b.max_ok_ns->0)
        }),
{
    lemma_counted_is_filtered(samples, now, k);
    lemma_slot_counts(samples, now, 29 - k);
    law_slot_shows_the_worst(samples, now, 29 - k);
    let of_slot = |s: SampleModel|
        10_000_000_000 * k <= (if s.at <= now {
            now - s.at
        } else {
            0
        }) < 10_000_000_000 * (k + 1);
    assert forall|i: int| 0 <= i < samples.len() implies (slot_of(now, (#[trigger] samples[i]).at)
        == 29 - k) == of_slot(samples[i]) by {
        lemma_slot_by_age(now, samples[i].at, k);
    }
    if worst(samples, now, 29 - k) is Some {
        let i = choose|i: int|
            0 <= i < samples.len() && slot_of(now, (#[trigger] samples[i]).at) == 29 - k
                && samples[i].result == ResultModel::Reply(worst(samples, now, 29 - k)->0);
        assert(of_slot(samples[i]));
    }
}

/// One more failure raises the count of samples and that of failures in its
/// slot by one; one more reply raises the count of samples only.
pub proof fn law_one_more_result_counts_once(
    samples: Seq<SampleModel>,
    s: SampleModel,
    now: u64,
    k: int,
)
    requires
        samples.len() < u32::MAX,
        0 <= k < 30,
        10_000_000_000 * k <= (if s.at <= now {
            now - s.at
        } else {
            0
        }) < 10_000_000_000 * (k + 1),
    ensures
        ({
            let b = row_model(samples, now)[29 - k];
            let c = row_model(samples.push(s), now)[29 - k];
            &&& s.result is Timeout || s.result is Error ==> c.samples == b.samples + 1 && c.failed
                == b.failed + 1 && c.max_ok_ns == b.max_ok_ns
            &&& s.result is Reply ==> c.samples == b.samples + 1 && c.failed == b.failed
            &&& s.result is Pending ==> c == b
        }),
{
    lemma_slot_by_age(now, s.at, k);
    lemma_slot_counts(samples, now, 29 - k);
    lemma_slot_counts(samples.push(s), now, 29 - k);
    assert(samples.push(s).drop_last() =~= samples);
}

/// The score is the worse of two numbers: the share of samples that failed, and
/// smoothstep of how far the latency `x` has come from the good threshold `g`
/// to the bad one, 25/3 of it. With `d = 22g` and `t` the distance `3x - 3g`
/// held between 0 and `d`, smoothstep is `t * t * (3d - 2t)` over `d * d * d`.
/// Without a reply it is 1.
pub proof fn law_score_is_the_worse_of_latency_and_loss(b: BucketInfo, tolerance: Tolerance)
    requires
        tolerance.wf(),
        b.samples > 0,
    ensures
        ({
            let s = score(b, tolerance);
            let d = 22 * tolerance.good_ns;
            let t = match b.max_ok_ns {
                Some(x) => if x <= tolerance.good_ns {
                    0
                } else if 3 * x - 3 * tolerance.good_ns >= d {
                    d
                } else {
                    3 * x - 3 * tolerance.good_ns
                },
                None => d,
            };
            &&& s.den > 0
            &&& s.num * (d * d * d) >= (t * t * (3 * d - 2 * t)) * s.den
            &&& s.num * b.samples >= b.failed * s.den
            &&& s.num * (d * d * d) == (t * t * (3 * d - 2 * t)) * s.den || s.num * b.samples
                == b.failed * s.den
        }),
{
    lemma_score_wf(b, tolerance);
    let s = score(b, tolerance);
    let g = tolerance.good_ns as int;
    let d = 22 * g;
    let latency = latency_score(tolerance, b.max_ok_ns);
    let t: int = match b.max_ok_ns {
        Some(x) => rise(3 * g, 25 * g, 3 * x),
        None => d,
    };
    lemma_cube_fits(d, t);
    let (n, m) = (latency.num as int, latency.den as int);
    let (f, c) = (b.failed as int, b.samples as int);
    let cube = d * d * d;
    let top = t * t * (3 * d - 2 * t);
    assert(n * cube == top * m) by {
        if b.max_ok_ns is Some {
            assert(n == top && m == cube);
        } else {
            assert(top == cube) by (nonlinear_arith)
                requires
                    t == d,
                    top == t * t * (3 * d - 2 * t),
                    cube == d * d * d,
            ;
        }
    }
    if latency.less(b.loss()) {
        assert(s.num == f && s.den == c);
        assert(f * cube >= top * c) by (nonlinear_arith)
            requires
                n * c < f * m,
                n * cube == top * m,
                0 < m,
                0 < cube,
                0 < c,
                0 <= top,
        {
            assert((n * c) * cube <= (f * m) * cube);
            assert((n * cube) * c == (top * m) * c);
            assert((top * c) * m <= (f * cube) * m);
        }
    } else {
        assert(n * c >= f * m);
    }
}

proof fn lemma_shortest(rows: Seq<Seq<BucketInfo>>)
    ensures
        forall|j: int| 0 <= j < rows.len() ==> shortest(rows) <= (#[trigger] rows[j]).len(),
        rows.len() > 0 ==> exists|j: int|
            0 <= j < rows.len() && shortest(rows) == (#[trigger] rows[j]).len(),
        rows.len() == 0 ==> shortest(rows) == 0,
    decreases rows.len(),
{
    if rows.len() > 1 {
        let before = rows.drop_last();
        lemma_shortest(before);
        let j = choose|j: int| 0 <= j < before.len() && shortest(before) == (#[trigger] before[j]).len();
        assert(rows[j] == before[j]);
        assert(rows[rows.len() - 1] == rows.last());
        assert forall|i: int| 0 <= i < rows.len() implies shortest(rows) <= (
        #[trigger] rows[i]).len() by {
            if i < before.len() {
                assert(before[i] == rows[i]);
            }
        }
    } else if rows.len() == 1 {
        assert(shortest(rows) == rows[0].len());
    }
}

/// Where a row has data there is a best row.
proof fn lemma_best_exists(rows: Seq<Seq<BucketInfo>>, i: int, tolerance: Tolerance)
    requires
        tolerance.wf(),
    ensures
        exists|b: BucketInfo| is_best(rows, i, tolerance, b),
    decreases rows.len(),
{
    if all_empty(rows, i) {
        assert(is_best(rows, i, tolerance, BucketInfo::nothing()));
    } else {
        let before = rows.drop_last();
        let last = rows.len() - 1;
        lemma_best_exists(before, i, tolerance);
        assert(forall|j: int| 0 <= j < last ==> #[trigger] rows[j] == before[j]);
        if all_empty(before, i) {
            assert forall|j: int| 0 <= j < last implies (#[trigger] rows[j])[i].samples == 0 by {
                assert(before[j][i].samples == 0);
            }
            let s = score(rows[last][i], tolerance);
            lemma_score_wf(rows[last][i], tolerance);
            crate::fraction::law_less_is_an_order(s, s, s);
            assert(best_row(rows, i, tolerance, last));
            assert(is_best(rows, i, tolerance, rows[last][i]));
        } else {
            let c = choose|b: BucketInfo| is_best(before, i, tolerance, b);
            let k = choose|k: int| #[trigger] best_row(before, i, tolerance, k) && c == before[k][i];
            let old_score = score(rows[k][i], tolerance);
            let s = score(rows[last][i], tolerance);
            lemma_score_wf(rows[last][i], tolerance);
            lemma_score_wf(rows[k][i], tolerance);
            crate::fraction::law_less_is_an_order(s, s, s);
            if rows[last][i].samples > 0 && s.less(old_score) {
                assert forall|j: int|
                    0 <= j < last && (#[trigger] rows[j])[i].samples > 0 implies s.less(
                    score(rows[j][i], tolerance),
                ) by {
                    lemma_score_wf(rows[j][i], tolerance);
                    assert(before[j] == rows[j]);
                    lemma_less_then_at_most(s, old_score, score(rows[j][i], tolerance));
                    crate::fraction::law_less_is_an_order(s, score(rows[j][i], tolerance), s);
                }
                assert(best_row(rows, i, tolerance, last));
                assert(is_best(rows, i, tolerance, rows[last][i]));
            } else {
                assert(best_row(rows, i, tolerance, k));
                assert(is_best(rows, i, tolerance, rows[k][i]));
            }
        }
    }
}

/// The best of the rows is as long as the shortest row. At each slot it is the
/// slot of one of the rows that have data there: none of them scores lower, and
/// those before it score higher. Where no row has data it is empty.
pub proof fn law_best_is_the_first_of_the_lowest_scores(
    rows: Seq<Seq<BucketInfo>>,
    tolerance: Tolerance,
)
    requires
        tolerance.wf(),
    ensures
        ({
            let best = best_model(rows, tolerance);
            &&& rows.len() == 0 ==> best.len() == 0
            &&& rows.len() > 0 ==> exists|j: int|
                0 <= j < rows.len() && best.len() == (#[trigger] rows[j]).len()
            &&& forall|j: int| 0 <= j < rows.len() ==> best.len() <= (#[trigger] rows[j]).len()
            &&& forall|i: int|
                0 <= i < best.len() && (forall|j: int|
                    0 <= j < rows.len() ==> (#[trigger] rows[j])[i].samples == 0)
                    ==> #[trigger] best[i] == (BucketInfo { samples: 0, failed: 0, max_ok_ns: None })
            &&& forall|i: int, j: int|
                #![trigger rows[j], best[i]]
                0 <= i < best.len() && 0 <= j < rows.len() && rows[j][i].samples > 0 ==> (exists|
                    k: int,
                |
                    0 <= k < rows.len() && best[i] == (#[trigger] rows[k])[i]
                        && rows[k][i].samples > 0 && score(best[i], tolerance).at_most(
                        score(rows[j][i], tolerance),
                    ) && (j < k ==> score(best[i], tolerance).less(score(rows[j][i], tolerance))))
        }),
{
    lemma_shortest(rows);
    let best = best_model(rows, tolerance);
    assert forall|i: int| 0 <= i < best.len() implies is_best(
        rows,
        i,
        tolerance,
        #[trigger] best[i],
    ) by {
        lemma_best_exists(rows, i, tolerance);
    }
    assert forall|i: int|
        0 <= i < best.len() && (forall|j: int|
            0 <= j < rows.len() ==> (#[trigger] rows[j])[i].samples
                == 0) implies #[trigger] best[i] == (BucketInfo {
        samples: 0,
        failed: 0,
        max_ok_ns: None,
    }) by {
        assert(all_empty(rows, i));
        assert(is_best(rows, i, tolerance, best[i]));
    }
    assert forall|i: int, j: int|
        #![trigger rows[j], best[i]]
        0 <= i < best.len() && 0 <= j < rows.len() && rows[j][i].samples
            > 0 implies (exists|k: int|
        0 <= k < rows.len() && best[i] == (#[trigger] rows[k])[i] && rows[k][i].samples > 0
            && score(best[i], tolerance).at_most(score(rows[j][i], tolerance)) && (j < k ==> score(
            best[i],
            tolerance,
        ).less(score(rows[j][i], tolerance)))) by {
        assert(is_best(rows, i, tolerance, best[i]));
        assert(!all_empty(rows, i));
        let k = choose|k: int| #[trigger] best_row(rows, i, tolerance, k) && best[i] == rows[k][i];
        assert(best[i] == rows[k][i]);
    }
}

/// The loss is the number of failures over the number of samples; without
/// samples there is none.
pub proof fn law_the_loss_is_failures_over_samples(b: BucketInfo)
    ensures
        b.samples > 0 ==> b.loss().num == b.failed && b.loss().den == b.samples,
        b.samples == 0 ==> b.loss().num == 0 && b.loss().den == 1,
        BucketInfo::nothing().samples == 0,
        BucketInfo::nothing().failed == 0,
        BucketInfo::nothing().max_ok_ns is None,
        b.wf() <==> b.failed <= b.samples && (b.max_ok_ns is Some) == (b.failed < b.samples),
{
}

/// Smoothstep is 0 up to `low` and 1 from `high` on; between them, a way `t` of
/// a span `d` gives `t * t * (3d - 2t)` over `d * d * d`.
pub proof fn law_smoothstep_is_a_cubic(low: int, high: int, x: int)
    requires
        low < high,
        high - low <= SPAN_MAX,
    ensures
        smooth(low, high, x).den > 0,
        x <= low ==> smooth(low, high, x).num == 0,
        x >= high ==> smooth(low, high, x).num == smooth(low, high, x).den,
        low < x < high ==> {
            let (d, t) = (high - low, x - low);
            smooth(low, high, x).num * (d * d * d) == (t * t * (3 * d - 2 * t)) * smooth(
                low,
                high,
                x,
            ).den
        },
{
    let d = high - low;
    lemma_cube_fits(d, rise(low, high, x));
    lemma_cube_fits(d, d);
    assert(0int * 0int * (3 * d - 2 * 0int) == 0) by (nonlinear_arith);
    assert(d * d * (3 * d - 2 * d) == d * d * d) by (nonlinear_arith);
}

/// The rows of lists are told in full.
pub proof fn law_sparklines_are_told_in_full(rows: Seq<Vec<BucketInfo>>, i: int)
    ensures
        rows_model(rows).len() == rows.len(),
        0 <= i < rows.len() ==> rows_model(rows)[i] == rows[i]@,
{
}

} // verus!
