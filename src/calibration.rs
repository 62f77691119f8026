//! Isotonic calibration of model probabilities over ten equal-width buckets,
//! refitted by pool-adjacent-violators.
use vstd::prelude::*;
use crate::fixed::{SCALE, lemma_prod2_bound, lemma_div_bounds};

verus! {

pub const NUM_BUCKETS: usize = 10;

/// Observations after which calibration replaces the raw probability.
pub const MIN_CALIBRATION_OBS: u64 = 50;

/// The fit is rerun after every this many observations.
pub const REFIT_EVERY: u64 = 20;

/// Largest number of observations a calibrator accepts.
pub const MAX_OBSERVATIONS: u64 = 0x100_0000_0000;

/// Calibrated probabilities are kept within [0.001, 0.999].
pub const CAL_LO: u64 = 1_000;
pub const CAL_HI: u64 = 999_000;

/// Bucket of a probability in millionths: `floor(p * 10)`, at most 9.
pub open spec fn bucket_of(p: int) -> int {
    if p / 100_000 > 9 { 9 } else { p / 100_000 }
}

pub open spec fn sorted_u64(s: Seq<u64>) -> bool {
    forall|i: int, j: int| 0 <= i <= j < s.len() ==> s[i] <= s[j]
}

pub open spec fn in_cal_range(s: Seq<u64>) -> bool {
    forall|i: int| 0 <= i < s.len() ==> CAL_LO <= #[trigger] s[i] <= CAL_HI
}

/// Calibrated value of `p`: `p` itself before 50 observations, then the
/// value of its bucket.
pub open spec fn spec_calibrate(c: Calibrator, p: int) -> int {
    if c.total < MIN_CALIBRATION_OBS {
        p
    } else {
        c.calibrated[bucket_of(p)] as int
    }
}

/// Gap between the midpoint of bucket `i` and a realized frequency, in
/// millionths.
pub open spec fn bucket_gap(i: int, n: u64, r: u64) -> int {
    let actual = r as int * SCALE as int / n as int;
    let expected = (2 * i + 1) * 50_000;
    if expected >= actual { expected - actual } else { actual - expected }
}

/// Sum of the gaps of the buckets with data.
pub open spec fn gap_sum(pred: Seq<u64>, hits: Seq<u64>) -> int
    decreases pred.len(),
{
    if pred.len() == 0 || hits.len() != pred.len() {
        0
    } else {
        let i = pred.len() - 1;
        gap_sum(pred.drop_last(), hits.drop_last()) + if pred[i] > 0 { bucket_gap(i, pred[i], hits[i]) } else { 0 }
    }
}

pub open spec fn buckets_with_data(pred: Seq<u64>) -> int
    decreases pred.len(),
{
    if pred.len() == 0 {
        0
    } else {
        buckets_with_data(pred.drop_last()) + if pred.last() > 0 { 1int } else { 0 }
    }
}

pub open spec fn mean_gap(pred: Seq<u64>, hits: Seq<u64>) -> int {
    if buckets_with_data(pred) == 0 { 0 } else { gap_sum(pred, hits) / buckets_with_data(pred) }
}

/// Bucketed isotonic calibrator. Probabilities are in millionths.
pub struct Calibrator {
    /// Observations per bucket.
    pub predicted: Vec<u64>,
    /// Observations per bucket whose outcome was true.
    pub realized: Vec<u64>,
    /// Calibrated probability per bucket.
    pub calibrated: Vec<u64>,
    /// Total observations.
    pub total: u64,
}

pub open spec fn sum_u64(s: Seq<u64>) -> int
    decreases s.len(),
{
    if s.len() == 0 { 0 } else { sum_u64(s.drop_last()) + s.last() as int }
}

proof fn lemma_sum_update(s: Seq<u64>, i: int, v: u64)
    requires
        0 <= i < s.len(),
    ensures
        sum_u64(s.update(i, v)) == sum_u64(s) - s[i] + v,
    decreases s.len(),
{
    if i == s.len() - 1 {
        assert(s.update(i, v).drop_last() =~= s.drop_last());
    } else {
        lemma_sum_update(s.drop_last(), i, v);
        assert(s.update(i, v).drop_last() =~= s.drop_last().update(i, v));
    }
}

proof fn lemma_sum_nonneg(s: Seq<u64>)
    ensures
        sum_u64(s) >= 0,
    decreases s.len(),
{
    if s.len() > 0 {
        lemma_sum_nonneg(s.drop_last());
    }
}

pub(crate) proof fn lemma_sum_bound(s: Seq<u64>, i: int)
    requires
        0 <= i < s.len(),
    ensures
        s[i] <= sum_u64(s),
    decreases s.len(),
{
    lemma_sum_nonneg(s.drop_last());
    if i < s.len() - 1 {
        lemma_sum_bound(s.drop_last(), i);
    }
}


/// Largest weight of a single bucket in the fit: ten times its count.
pub const MAX_BUCKET_WEIGHT: u64 = 10 * MAX_OBSERVATIONS;

/// Weight of a bucket in the fit: ten per observation, or one (a tenth of
/// an observation) for an empty bucket.
pub open spec fn bucket_weight(n: u64) -> int {
    if n > 0 { 10 * n } else { 1 }
}

/// Weight times frequency of bucket `b`, times 20. An empty bucket counts
/// its midpoint `(b + 0.5) / 10`.
pub open spec fn bucket_mass(b: int, n: u64, r: u64) -> int {
    if n > 0 { 200 * r } else { 2 * b + 1 }
}

pub open spec fn weight_sum(pred: Seq<u64>, lo: int, hi: int) -> int
    decreases hi - lo + 1,
{
    if hi < lo { 0 } else { weight_sum(pred, lo, hi - 1) + bucket_weight(pred[hi]) }
}

pub open spec fn mass_sum(pred: Seq<u64>, hits: Seq<u64>, lo: int, hi: int) -> int
    decreases hi - lo + 1,
{
    if hi < lo { 0 } else { mass_sum(pred, hits, lo, hi - 1) + bucket_mass(hi, pred[hi], hits[hi]) }
}

pub open spec fn clamp_fit(x: int) -> int {
    if x < CAL_LO { CAL_LO as int } else if x > CAL_HI { CAL_HI as int } else { x }
}

/// Calibrated value of a pool: its weighted mean frequency in millionths,
/// rounded down and clamped to [0.001, 0.999].
pub open spec fn pool_value(mass: int, weight: int) -> int {
    clamp_fit(mass * 50_000 / weight)
}

/// Counts a fit can rely on: ten buckets, hits within observations, and
/// observations within the bound.
pub open spec fn counts_ok(pred: Seq<u64>, hits: Seq<u64>) -> bool {
    &&& pred.len() == NUM_BUCKETS
    &&& hits.len() == NUM_BUCKETS
    &&& forall|b: int| 0 <= b < NUM_BUCKETS ==> #[trigger] hits[b] <= pred[b] && pred[b] <= MAX_OBSERVATIONS
}

/// Contiguous blocks `starts[k]..=ends[k]` that cover the ten buckets in
/// order.
pub open spec fn blocks_ok(starts: Seq<usize>, ends: Seq<usize>) -> bool {
    &&& 1 <= starts.len() <= NUM_BUCKETS
    &&& ends.len() == starts.len()
    &&& starts[0] == 0
    &&& ends[starts.len() - 1] == NUM_BUCKETS - 1
    &&& forall|k: int| 0 <= k < starts.len() ==> #[trigger] starts[k] <= ends[k]
    &&& forall|k: int| 0 <= k < starts.len() - 1 ==> #[trigger] starts[k + 1] == ends[k] + 1
}

/// Pools of adjacent buckets with their mass and weight sums.
pub open spec fn pools_ok(
    masses: Seq<u64>,
    wts: Seq<u64>,
    starts: Seq<usize>,
    ends: Seq<usize>,
    pred: Seq<u64>,
    hits: Seq<u64>,
) -> bool {
    &&& blocks_ok(starts, ends)
    &&& masses.len() == starts.len()
    &&& wts.len() == starts.len()
    &&& counts_ok(pred, hits)
    &&& forall|k: int| 0 <= k < starts.len() ==> #[trigger] masses[k] == mass_sum(pred, hits, starts[k] as int, ends[k] as int)
    &&& forall|k: int| 0 <= k < starts.len() ==> #[trigger] wts[k] == weight_sum(pred, starts[k] as int, ends[k] as int)
    &&& forall|k: int| 0 <= k < starts.len() ==> prefixes_not_below(pred, hits, #[trigger] starts[k] as int, ends[k] as int)
}

/// Every proper prefix of the block `lo..=hi` has a mean frequency at
/// least the block's: the block could not be split into two pools in
/// order.
pub open spec fn prefixes_not_below(pred: Seq<u64>, hits: Seq<u64>, lo: int, hi: int) -> bool {
    forall|m: int| lo <= m < hi ==> #[trigger] (mass_sum(pred, hits, lo, m) * weight_sum(pred, lo, hi))
        >= mass_sum(pred, hits, lo, hi) * weight_sum(pred, lo, m)
}

proof fn lemma_merge_prefixes(pred: Seq<u64>, hits: Seq<u64>, lo: int, mid: int, hi: int)
    requires
        counts_ok(pred, hits),
        0 <= lo <= mid < hi < NUM_BUCKETS,
        prefixes_not_below(pred, hits, lo, mid),
        prefixes_not_below(pred, hits, mid + 1, hi),
        mass_sum(pred, hits, lo, mid) * weight_sum(pred, mid + 1, hi) > mass_sum(pred, hits, mid + 1, hi) * weight_sum(pred, lo, mid),
    ensures
        prefixes_not_below(pred, hits, lo, hi),
{
    let x = mass_sum(pred, hits, lo, mid);
    let y = weight_sum(pred, lo, mid);
    let s = mass_sum(pred, hits, mid + 1, hi);
    let t = weight_sum(pred, mid + 1, hi);
    lemma_sums_split(pred, hits, lo, mid, hi);
    lemma_sums_bounds(pred, hits, lo, mid);
    lemma_sums_bounds(pred, hits, mid + 1, hi);
    let big_s = x + s;
    let big_w = y + t;
    assert(x * big_w >= big_s * y) by (nonlinear_arith)
        requires x * t > s * y, big_s == x + s, big_w == y + t;
    assert forall|m: int| lo <= m < hi implies #[trigger] (mass_sum(pred, hits, lo, m) * weight_sum(pred, lo, hi))
        >= mass_sum(pred, hits, lo, hi) * weight_sum(pred, lo, m) by {
        if m < mid {
            let a = mass_sum(pred, hits, lo, m);
            let b = weight_sum(pred, lo, m);
            lemma_sums_bounds(pred, hits, lo, m);
            assert(a * y >= x * b);
            assert(x > 0) by (nonlinear_arith)
                requires x * t > s * y, s >= 0, y > 0, x >= 0;
            assert(big_w > 0);
            assert((a * y) * big_w >= (x * b) * big_w) by (nonlinear_arith)
                requires a * y >= x * b, big_w > 0;
            assert((x * big_w) * b >= (big_s * y) * b) by (nonlinear_arith)
                requires x * big_w >= big_s * y, b > 0;
            assert(y * (a * big_w) >= y * (big_s * b)) by (nonlinear_arith)
                requires (a * y) * big_w >= (x * b) * big_w, (x * big_w) * b >= (big_s * y) * b;
            assert(a * big_w >= big_s * b) by (nonlinear_arith)
                requires y * (a * big_w) >= y * (big_s * b), y > 0;
        } else if m > mid {
            let p = mass_sum(pred, hits, mid + 1, m);
            let q = weight_sum(pred, mid + 1, m);
            lemma_sums_bounds(pred, hits, mid + 1, m);
            lemma_sums_split(pred, hits, lo, mid, m);
            lemma_sums_split(pred, hits, mid + 1, m, hi);
            assert(p * t >= s * q);
            let rest = weight_sum(pred, m + 1, hi);
            lemma_sums_bounds(pred, hits, m + 1, hi);
            assert(t > q);
            assert(t * (y * (s - p)) <= y * (s * (t - q))) by (nonlinear_arith)
                requires p * t >= s * q, y > 0;
            assert(y * (s * (t - q)) <= x * (t * (t - q))) by (nonlinear_arith)
                requires x * t > s * y, t > q, y > 0, s >= 0;
            assert(y * (s - p) <= x * (t - q)) by (nonlinear_arith)
                requires t * (y * (s - p)) <= y * (s * (t - q)), y * (s * (t - q)) <= x * (t * (t - q)), t > 0;
            assert((x + p) * (y + t) >= (x + s) * (y + q)) by (nonlinear_arith)
                requires y * (s - p) <= x * (t - q), p * t >= s * q;
        }
    }
}

/// Adjacent pools whose mean frequencies do not decrease.
pub open spec fn pools_ordered(masses: Seq<u64>, wts: Seq<u64>, upto: int) -> bool {
    forall|k: int| 0 <= k < upto ==> #[trigger] masses[k] * wts[k + 1] <= masses[k + 1] * wts[k]
}

/// The calibrated values are the pool-adjacent-violators fit of the counts:
/// contiguous blocks whose mean frequencies do not decrease and none of
/// which could be split in order (no prefix has a lower mean than its
/// block), each bucket holding its block's value.
pub open spec fn is_fit(cal: Seq<u64>, pred: Seq<u64>, hits: Seq<u64>) -> bool {
    exists|starts: Seq<usize>, ends: Seq<usize>| {
        &&& blocks_ok(starts, ends)
        &&& forall|k: int| 0 <= k < starts.len() ==> prefixes_not_below(pred, hits, #[trigger] starts[k] as int, ends[k] as int)
        &&& forall|k: int| 0 <= k < starts.len() - 1 ==> #[trigger] (mass_sum(pred, hits, starts[k] as int, ends[k] as int)
            * weight_sum(pred, starts[k + 1] as int, ends[k + 1] as int))
            <= mass_sum(pred, hits, starts[k + 1] as int, ends[k + 1] as int) * weight_sum(pred, starts[k] as int, ends[k] as int)
        &&& forall|k: int, b: int| 0 <= k < starts.len() && starts[k] <= b <= ends[k] ==> #[trigger] cal[b] as int
            == #[trigger] pool_value(mass_sum(pred, hits, starts[k] as int, ends[k] as int), weight_sum(pred, starts[k] as int, ends[k] as int))
    }
}

proof fn lemma_sums_split(pred: Seq<u64>, hits: Seq<u64>, lo: int, mid: int, hi: int)
    requires
        lo <= mid < hi,
    ensures
        weight_sum(pred, lo, mid) + weight_sum(pred, mid + 1, hi) == weight_sum(pred, lo, hi),
        mass_sum(pred, hits, lo, mid) + mass_sum(pred, hits, mid + 1, hi) == mass_sum(pred, hits, lo, hi),
    decreases hi - mid,
{
    if hi > mid + 1 {
        lemma_sums_split(pred, hits, lo, mid, hi - 1);
    } else {
        assert(weight_sum(pred, mid + 1, mid) == 0);
        assert(mass_sum(pred, hits, mid + 1, mid) == 0);
    }
}

proof fn lemma_sums_bounds(pred: Seq<u64>, hits: Seq<u64>, lo: int, hi: int)
    requires
        counts_ok(pred, hits),
        0 <= lo <= hi < NUM_BUCKETS,
    ensures
        1 <= weight_sum(pred, lo, hi) <= (hi - lo + 1) * MAX_BUCKET_WEIGHT,
        0 <= mass_sum(pred, hits, lo, hi) <= 20 * weight_sum(pred, lo, hi),
    decreases hi - lo,
{
    assert(hits[hi] <= pred[hi] && pred[hi] <= MAX_OBSERVATIONS);
    if hi > lo {
        lemma_sums_bounds(pred, hits, lo, hi - 1);
    } else {
        assert(weight_sum(pred, lo, lo - 1) == 0);
        assert(mass_sum(pred, hits, lo, lo - 1) == 0);
    }
}

/// Pool ends grow along the list, so each block ends before the next
/// ones start.
proof fn lemma_blocks_order(starts: Seq<usize>, ends: Seq<usize>, q: int, p: int)
    requires
        blocks_ok(starts, ends),
        0 <= q < p < starts.len(),
    ensures
        ends[q] < starts[p],
    decreases p - q,
{
    assert(starts[q + 1] == ends[q] + 1);
    if q + 1 < p {
        assert(starts[q + 1] <= ends[q + 1]);
        lemma_blocks_order(starts, ends, q + 1, p);
    }
}

proof fn lemma_end_le_last(starts: Seq<usize>, ends: Seq<usize>, k: int)
    requires
        blocks_ok(starts, ends),
        0 <= k < starts.len(),
    ensures
        ends[k] <= NUM_BUCKETS - 1,
{
    if k < starts.len() - 1 {
        lemma_blocks_order(starts, ends, k, starts.len() - 1);
    }
}

/// Rounding down keeps the order of two fractions.
proof fn lemma_floor_mono(a: int, b: int, c: int, d: int)
    requires
        0 <= a,
        0 <= c,
        0 < b,
        0 < d,
        a * d <= c * b,
    ensures
        a * 50_000 / b <= c * 50_000 / d,
{
    let x = a * 50_000 / b;
    vstd::arithmetic::div_mod::lemma_fundamental_div_mod(a * 50_000, b);
    vstd::arithmetic::div_mod::lemma_fundamental_div_mod(c * 50_000, d);
    let y = c * 50_000 / d;
    assert(x * b <= a * 50_000) by (nonlinear_arith)
        requires a * 50_000 == b * x + (a * 50_000) % b, (a * 50_000) % b >= 0;
    assert(x * d <= c * 50_000) by (nonlinear_arith)
        requires x * b <= a * 50_000, a * d <= c * b, b > 0, d > 0;
    assert(x <= y) by (nonlinear_arith)
        requires x * d <= c * 50_000, c * 50_000 == d * y + (c * 50_000) % d, (c * 50_000) % d < d, d > 0;
}

proof fn lemma_merge_ok(m0: Seq<u64>, w0: Seq<u64>, s0: Seq<usize>, e0: Seq<usize>, pred: Seq<u64>, hits: Seq<u64>, i: int)
    requires
        pools_ok(m0, w0, s0, e0, pred, hits),
        0 <= i,
        i + 1 < m0.len(),
        m0[i] + m0[i + 1] <= u64::MAX,
        w0[i] + w0[i + 1] <= u64::MAX,
        m0[i] * w0[i + 1] > m0[i + 1] * w0[i],
    ensures
        pools_ok(
            m0.update(i, (m0[i] + m0[i + 1]) as u64).remove(i + 1),
            w0.update(i, (w0[i] + w0[i + 1]) as u64).remove(i + 1),
            s0.remove(i + 1),
            e0.update(i, e0[i + 1]).remove(i + 1),
            pred,
            hits,
        ),
{
    let masses = m0.update(i, (m0[i] + m0[i + 1]) as u64).remove(i + 1);
    let wts = w0.update(i, (w0[i] + w0[i + 1]) as u64).remove(i + 1);
    let starts = s0.remove(i + 1);
    let ends = e0.update(i, e0[i + 1]).remove(i + 1);
    let n = s0.len() - 1;
    assert(s0[i + 1] == e0[i] + 1);
    lemma_sums_split(pred, hits, s0[i] as int, e0[i] as int, e0[i + 1] as int);
    assert forall|k: int| 0 <= k < n - 1 implies #[trigger] starts[k + 1] == ends[k] + 1 by {
        if k < i {
            assert(s0[k + 1] == e0[k] + 1);
        } else {
            let k1 = k + 1;
            assert(s0[k1 + 1] == e0[k1] + 1);
        }
    }
    assert forall|k: int| 0 <= k < n implies #[trigger] starts[k] <= ends[k] by {
        if k == i {
            assert(s0[i] <= e0[i]);
            assert(s0[i + 1] <= e0[i + 1]);
        } else if k > i {
            assert(s0[k + 1] <= e0[k + 1]);
        }
    }
    assert forall|k: int| 0 <= k < n implies #[trigger] masses[k] == mass_sum(pred, hits, starts[k] as int, ends[k] as int) by {
        if k > i {
            assert(masses[k] == m0[k + 1]);
        }
    }
    assert forall|k: int| 0 <= k < n implies #[trigger] wts[k] == weight_sum(pred, starts[k] as int, ends[k] as int) by {
        if k > i {
            assert(wts[k] == w0[k + 1]);
        }
    }
    assert(ends[n - 1] == e0[s0.len() - 1]);
    lemma_end_le_last(s0, e0, i + 1);
    assert(prefixes_not_below(pred, hits, s0[i] as int, e0[i] as int));
    assert(prefixes_not_below(pred, hits, s0[i + 1] as int, e0[i + 1] as int));
    lemma_merge_prefixes(pred, hits, s0[i] as int, e0[i] as int, e0[i + 1] as int);
    assert forall|k: int| 0 <= k < n implies prefixes_not_below(pred, hits, #[trigger] starts[k] as int, ends[k] as int) by {
        if k > i {
            assert(starts[k] == s0[k + 1]);
            assert(ends[k] == e0[k + 1]);
            assert(prefixes_not_below(pred, hits, s0[k + 1] as int, e0[k + 1] as int));
        } else if k < i {
            assert(prefixes_not_below(pred, hits, s0[k] as int, e0[k] as int));
        }
    }
}

/// Merges pool `i + 1` into pool `i`: masses and weights add up.
fn merge_pools(
    masses: &mut Vec<u64>,
    wts: &mut Vec<u64>,
    starts: &mut Vec<usize>,
    ends: &mut Vec<usize>,
    i: usize,
    Ghost(pred): Ghost<Seq<u64>>,
    Ghost(hits): Ghost<Seq<u64>>,
)
    requires
        pools_ok(old(masses)@, old(wts)@, old(starts)@, old(ends)@, pred, hits),
        i + 1 < old(masses).len(),
        old(masses)@[i as int] * old(wts)@[i as int + 1] > old(masses)@[i as int + 1] * old(wts)@[i as int],
    ensures
        pools_ok(final(masses)@, final(wts)@, final(starts)@, final(ends)@, pred, hits),
        final(masses).len() == old(masses).len() - 1,
        forall|k: int| 0 <= k < i ==> #[trigger] final(masses)@[k] == old(masses)@[k] && final(wts)@[k] == old(wts)@[k],
{
    let ghost m0 = masses@;
    let ghost w0 = wts@;
    let ghost s0 = starts@;
    let ghost e0 = ends@;
    proof {
        let ii = i as int;
        assert(s0[ii + 1] == e0[ii] + 1);
        lemma_end_le_last(s0, e0, ii + 1);
        lemma_sums_bounds(pred, hits, s0[ii] as int, e0[ii] as int);
        lemma_sums_bounds(pred, hits, s0[ii + 1] as int, e0[ii + 1] as int);
        assert((e0[ii] - s0[ii] + 1) * MAX_BUCKET_WEIGHT <= 10 * MAX_BUCKET_WEIGHT) by (nonlinear_arith)
            requires e0[ii] - s0[ii] + 1 <= 10;
        assert((e0[ii + 1] - s0[ii + 1] + 1) * MAX_BUCKET_WEIGHT <= 10 * MAX_BUCKET_WEIGHT) by (nonlinear_arith)
            requires e0[ii + 1] - s0[ii + 1] + 1 <= 10;
    }
    let nm: u64 = masses[i] + masses[i + 1];
    let nw: u64 = wts[i] + wts[i + 1];
    let ne: usize = ends[i + 1];
    masses.set(i, nm);
    wts.set(i, nw);
    ends.set(i, ne);
    masses.remove(i + 1);
    wts.remove(i + 1);
    starts.remove(i + 1);
    ends.remove(i + 1);
    proof {
        lemma_merge_ok(m0, w0, s0, e0, pred, hits, i as int);
    }
}

impl Calibrator {
    pub open spec fn wf(&self) -> bool {
        &&& self.predicted.len() == NUM_BUCKETS
        &&& self.realized.len() == NUM_BUCKETS
        &&& self.calibrated.len() == NUM_BUCKETS
        &&& forall|i: int| 0 <= i < NUM_BUCKETS ==> #[trigger] self.realized[i] <= self.predicted[i]
        &&& sum_u64(self.predicted@) == self.total as int
        &&& self.total <= MAX_OBSERVATIONS
        &&& sorted_u64(self.calibrated@)
        &&& in_cal_range(self.calibrated@)
    }

    /// An empty calibrator whose buckets map to their midpoints.
    pub fn new() -> (r: Calibrator)
        ensures
            r.wf(),
            r.total == 0,
            forall|i: int| 0 <= i < NUM_BUCKETS ==> #[trigger] r.calibrated[i] == 100_000 * i + 50_000,
    {
        let c: Vec<u64> = vec![50_000, 150_000, 250_000, 350_000, 450_000, 550_000, 650_000, 750_000, 850_000, 950_000];
        let p: Vec<u64> = vec![0, 0, 0, 0, 0, 0, 0, 0, 0, 0];
        let q: Vec<u64> = vec![0, 0, 0, 0, 0, 0, 0, 0, 0, 0];
        proof {
            assert(sum_u64(p@) == 0) by {
                reveal_with_fuel(sum_u64, 11);
            }
        }
        Calibrator { predicted: p, realized: q, calibrated: c, total: 0 }
    }

    /// Refits the calibrated values by pool-adjacent-violators over the
    /// empirical frequencies of the buckets (an empty bucket counts as its
    /// midpoint with a tenth of an observation's weight): adjacent pools
    /// whose means decrease are merged until none do, and every bucket takes
    /// its pool's mean, clamped to [0.001, 0.999].
    pub fn run_pav(&mut self)
        requires
            old(self).wf(),
        ensures
            final(self).wf(),
            forall|i: int| 0 <= i < NUM_BUCKETS - 1 ==> #[trigger] final(self).calibrated[i] <= final(self).calibrated[i + 1],
            forall|i: int| 0 <= i < NUM_BUCKETS ==> CAL_LO <= #[trigger] final(self).calibrated[i] <= CAL_HI,
            final(self).predicted@ == old(self).predicted@,
            final(self).realized@ == old(self).realized@,
            final(self).total == old(self).total,
            is_fit(final(self).calibrated@, final(self).predicted@, final(self).realized@),
    {
        let ghost pred = self.predicted@;
        let ghost hits = self.realized@;
        proof {
            assert forall|b: int| 0 <= b < NUM_BUCKETS implies #[trigger] hits[b] <= pred[b] && pred[b] <= MAX_OBSERVATIONS by {
                lemma_sum_bound(pred, b);
                assert(self.realized[b] <= self.predicted[b]);
            }
        }
        let mut masses: Vec<u64> = Vec::new();
        let mut wts: Vec<u64> = Vec::new();
        let mut starts: Vec<usize> = Vec::new();
        let mut ends: Vec<usize> = Vec::new();
        let mut i: usize = 0;
        while i < NUM_BUCKETS
            invariant
                self.wf(),
                pred == self.predicted@,
                hits == self.realized@,
                counts_ok(pred, hits),
                i <= NUM_BUCKETS,
                masses.len() == i && wts.len() == i && starts.len() == i && ends.len() == i,
                forall|k: int| 0 <= k < i ==> #[trigger] masses@[k] == bucket_mass(k, pred[k], hits[k]),
                forall|k: int| 0 <= k < i ==> #[trigger] wts@[k] == bucket_weight(pred[k]),
                forall|k: int| 0 <= k < i ==> #[trigger] starts@[k] == k,
                forall|k: int| 0 <= k < i ==> #[trigger] ends@[k] == k,
            decreases NUM_BUCKETS - i,
        {
            let n: u64 = self.predicted[i];
            let r: u64 = self.realized[i];
            proof {
                assert(hits[i as int] <= pred[i as int] && pred[i as int] <= MAX_OBSERVATIONS);
            }
            if n > 0 {
                masses.push(200 * r);
                wts.push(10 * n);
            } else {
                masses.push(2 * i as u64 + 1);
                wts.push(1);
            }
            starts.push(i);
            ends.push(i);
            i = i + 1;
        }
        proof {
            assert forall|k: int| 0 <= k < NUM_BUCKETS - 1 implies #[trigger] starts@[k + 1] == ends@[k] + 1 by {
                assert(starts@[k + 1] == k + 1);
                assert(ends@[k] == k);
            }
            assert(starts@[0] == 0);
            assert(ends@[9] == 9);
            assert forall|k: int| 0 <= k < NUM_BUCKETS implies #[trigger] starts@[k] <= ends@[k] by {
                assert(starts@[k] == k);
                assert(ends@[k] == k);
            }
            assert forall|k: int| 0 <= k < NUM_BUCKETS implies #[trigger] masses@[k] == mass_sum(pred, hits, starts@[k] as int, ends@[k] as int) by {
                assert(starts@[k] == k);
                assert(ends@[k] == k);
                assert(mass_sum(pred, hits, k, k - 1) == 0);
            }
            assert forall|k: int| 0 <= k < NUM_BUCKETS implies prefixes_not_below(pred, hits, #[trigger] starts@[k] as int, ends@[k] as int) by {
                assert(starts@[k] == k);
                assert(ends@[k] == k);
            }
            assert forall|k: int| 0 <= k < NUM_BUCKETS implies #[trigger] wts@[k] == weight_sum(pred, starts@[k] as int, ends@[k] as int) by {
                assert(starts@[k] == k);
                assert(ends@[k] == k);
                assert(weight_sum(pred, k, k - 1) == 0);
            }
        }
        let mut changed: bool = true;
        let mut iterations: u32 = 0;
        while changed && iterations < 100
            invariant
                pools_ok(masses@, wts@, starts@, ends@, pred, hits),
                self.wf(),
                pred == self.predicted@,
                hits == self.realized@,
                changed ==> iterations + masses.len() <= NUM_BUCKETS,
                !changed ==> pools_ordered(masses@, wts@, masses.len() - 1),
                iterations <= 100,
            decreases 100 - iterations,
        {
            changed = false;
            iterations = iterations + 1;
            let ghost start_len = masses.len();
            let mut j: usize = 0;
            while j + 1 < masses.len()
                invariant
                    pools_ok(masses@, wts@, starts@, ends@, pred, hits),
                    j < masses.len(),
                    masses.len() <= start_len,
                    changed == (masses.len() < start_len),
                    !changed ==> pools_ordered(masses@, wts@, j as int),
                decreases masses.len() - j,
            {
                proof {
                    let (s, e) = (starts@, ends@);
                    let jj = j as int;
                    lemma_end_le_last(s, e, jj + 1);
                    lemma_end_le_last(s, e, jj);
                    lemma_sums_bounds(pred, hits, s[jj] as int, e[jj] as int);
                    lemma_sums_bounds(pred, hits, s[jj + 1] as int, e[jj + 1] as int);
                    assert((e[jj] - s[jj] + 1) * MAX_BUCKET_WEIGHT <= 10 * MAX_BUCKET_WEIGHT) by (nonlinear_arith)
                        requires e[jj] - s[jj] + 1 <= 10;
                    assert((e[jj + 1] - s[jj + 1] + 1) * MAX_BUCKET_WEIGHT <= 10 * MAX_BUCKET_WEIGHT) by (nonlinear_arith)
                        requires e[jj + 1] - s[jj + 1] + 1 <= 10;
                    lemma_prod2_bound(masses@[jj] as int, wts@[jj + 1] as int, 200 * MAX_BUCKET_WEIGHT as int, 10 * MAX_BUCKET_WEIGHT as int);
                    lemma_prod2_bound(masses@[jj + 1] as int, wts@[jj] as int, 200 * MAX_BUCKET_WEIGHT as int, 10 * MAX_BUCKET_WEIGHT as int);
                }
                if masses[j] as u128 * wts[j + 1] as u128 > masses[j + 1] as u128 * wts[j] as u128 {
                    merge_pools(&mut masses, &mut wts, &mut starts, &mut ends, j, Ghost(pred), Ghost(hits));
                    changed = true;
                } else {
                    j = j + 1;
                }
            }
        }
        // Each pool writes its clamped mean into the buckets it covers.
        let mut p: usize = 0;
        while p < masses.len()
            invariant
                pools_ok(masses@, wts@, starts@, ends@, pred, hits),
                pools_ordered(masses@, wts@, masses.len() - 1),
                p <= masses.len(),
                self.predicted@ == pred,
                self.realized@ == hits,
                self.predicted.len() == NUM_BUCKETS,
                self.realized.len() == NUM_BUCKETS,
                self.calibrated.len() == NUM_BUCKETS,
                self.predicted@ == old(self).predicted@,
                self.realized@ == old(self).realized@,
                self.total == old(self).total,
                in_cal_range(self.calibrated@),
                p < masses.len() ==> forall|a: int, b: int| 0 <= a <= b < starts@[p as int] ==> self.calibrated@[a] <= self.calibrated@[b],
                p == masses.len() ==> sorted_u64(self.calibrated@),
                0 < p < masses.len() ==> self.calibrated@[starts@[p as int] - 1] as int
                    == pool_value(masses@[p - 1] as int, wts@[p - 1] as int),
                forall|q: int, b: int| 0 <= q < p && starts@[q] <= b <= ends@[q] ==> #[trigger] self.calibrated@[b] as int
                    == #[trigger] pool_value(masses@[q] as int, wts@[q] as int),
            decreases masses.len() - p,
        {
            proof {
                lemma_end_le_last(starts@, ends@, p as int);
                lemma_sums_bounds(pred, hits, starts@[p as int] as int, ends@[p as int] as int);
                lemma_prod2_bound(masses@[p as int] as int, 50_000, 200 * MAX_BUCKET_WEIGHT as int, 50_000);
            }
            let raw: u128 = masses[p] as u128 * 50_000 / wts[p] as u128;
            let val: u64 = if raw < CAL_LO as u128 { CAL_LO } else if raw > CAL_HI as u128 { CAL_HI } else { raw as u64 };
            let lo: usize = starts[p];
            let hi: usize = ends[p];
            proof {
                if p > 0 {
                    let pp = p as int;
                    lemma_sums_bounds(pred, hits, starts@[pp - 1] as int, ends@[pp - 1] as int);
                    assert(masses@[pp - 1] * wts@[pp] <= masses@[pp] * wts@[pp - 1]);
                    lemma_floor_mono(masses@[pp - 1] as int, wts@[pp - 1] as int, masses@[pp] as int, wts@[pp] as int);
                }
            }
            let mut b: usize = lo;
            while b <= hi
                invariant
                    lo <= b <= hi + 1,
                    hi < NUM_BUCKETS,
                    lo == starts@[p as int],
                    hi == ends@[p as int],
                    p < masses.len(),
                    pools_ok(masses@, wts@, starts@, ends@, pred, hits),
                    self.calibrated.len() == NUM_BUCKETS,
                    self.predicted@ == old(self).predicted@,
                    self.realized@ == old(self).realized@,
                    self.predicted.len() == NUM_BUCKETS,
                    self.realized.len() == NUM_BUCKETS,
                    self.total == old(self).total,
                    in_cal_range(self.calibrated@),
                    CAL_LO <= val <= CAL_HI,
                    val as int == pool_value(masses@[p as int] as int, wts@[p as int] as int),
                    forall|a: int, c: int| 0 <= a <= c < lo ==> self.calibrated@[a] <= self.calibrated@[c],
                    lo > 0 ==> self.calibrated@[lo - 1] <= val,
                    forall|a: int| lo <= a < b ==> #[trigger] self.calibrated@[a] == val,
                    forall|q: int, a: int| 0 <= q < p && starts@[q] <= a <= ends@[q] ==> #[trigger] self.calibrated@[a] as int
                        == #[trigger] pool_value(masses@[q] as int, wts@[q] as int),
                decreases hi + 1 - b,
            {
                proof {
                    assert forall|q: int| 0 <= q < p implies #[trigger] ends@[q] < lo by {
                        lemma_blocks_order(starts@, ends@, q, p as int);
                    }
                }
                self.calibrated.set(b, val);
                b = b + 1;
            }
            proof {
                assert forall|a: int, c: int| 0 <= a <= c < hi + 1 implies self.calibrated@[a] <= self.calibrated@[c] by {
                    if c >= lo && a < lo {
                        assert(self.calibrated@[lo - 1] <= val);
                        assert(self.calibrated@[a] <= self.calibrated@[lo - 1]);
                    }
                }
                if p + 1 < masses.len() {
                    let pp = p as int;
                    assert(starts@[pp + 1] == ends@[pp] + 1);
                } else {
                    assert(hi == NUM_BUCKETS - 1);
                }
            }
            p = p + 1;
        }
        proof {
            let (s, e) = (starts@, ends@);
            assert forall|k: int| 0 <= k < s.len() - 1 implies #[trigger] (mass_sum(pred, hits, s[k] as int, e[k] as int)
                * weight_sum(pred, s[k + 1] as int, e[k + 1] as int))
                <= mass_sum(pred, hits, s[k + 1] as int, e[k + 1] as int) * weight_sum(pred, s[k] as int, e[k] as int) by {
                assert(masses@[k] * wts@[k + 1] <= masses@[k + 1] * wts@[k]);
            }
            assert forall|k: int, b: int| 0 <= k < s.len() && s[k] <= b <= e[k] implies #[trigger] self.calibrated@[b] as int
                == #[trigger] pool_value(mass_sum(pred, hits, s[k] as int, e[k] as int), weight_sum(pred, s[k] as int, e[k] as int)) by {
                assert(self.calibrated@[b] as int == pool_value(masses@[k] as int, wts@[k] as int));
            }
            assert(is_fit(self.calibrated@, pred, hits));
        }
    }

    /// Records that a prediction of `prob` came out `realized`, refitting
    /// after every 20th observation.
    pub fn record(&mut self, prob: i64, realized: bool)
        requires
            old(self).wf(),
            0 <= prob <= SCALE,
            old(self).total < MAX_OBSERVATIONS,
        ensures
            final(self).wf(),
            final(self).total == old(self).total + 1,
            final(self).predicted@ == old(self).predicted@.update(bucket_of(prob as int), (old(self).predicted[bucket_of(prob as int)] + 1) as u64),
            final(self).realized@ == (if realized {
                old(self).realized@.update(bucket_of(prob as int), (old(self).realized[bucket_of(prob as int)] + 1) as u64)
            } else {
                old(self).realized@
            }),
            final(self).total % REFIT_EVERY != 0 ==> final(self).calibrated@ == old(self).calibrated@,
            final(self).total % REFIT_EVERY == 0 ==> is_fit(final(self).calibrated@, final(self).predicted@, final(self).realized@),
    {
        let b = prob_to_bucket(prob);
        proof {
            lemma_sum_bound(self.predicted@, b as int);
            lemma_sum_update(self.predicted@, b as int, (self.predicted[b as int] + 1) as u64);
        }
        let n: u64 = self.predicted[b];
        self.predicted.set(b, n + 1);
        if realized {
            let r: u64 = self.realized[b];
            self.realized.set(b, r + 1);
        }
        self.total = self.total + 1;
        if self.total % REFIT_EVERY == 0 {
            self.run_pav();
        }
    }

    /// Mean absolute gap, in millionths, between each bucket's midpoint and
    /// its realized frequency (rounded down), over the buckets with data;
    /// zero when no bucket has any.
    pub fn calibration_error(&self) -> (r: u64)
        requires
            self.wf(),
        ensures
            r == mean_gap(self.predicted@, self.realized@),
    {
        let mut sum: u64 = 0;
        let mut count: u64 = 0;
        let mut i: usize = 0;
        while i < NUM_BUCKETS
            invariant
                self.wf(),
                i <= NUM_BUCKETS,
                sum == gap_sum(self.predicted@.take(i as int), self.realized@.take(i as int)),
                count == buckets_with_data(self.predicted@.take(i as int)),
                sum <= i * SCALE,
                count <= i,
            decreases NUM_BUCKETS - i,
        {
            let n: u64 = self.predicted[i];
            let r: u64 = self.realized[i];
            proof {
                assert(self.predicted@.take(i as int + 1).drop_last() =~= self.predicted@.take(i as int));
                assert(self.realized@.take(i as int + 1).drop_last() =~= self.realized@.take(i as int));
                assert(self.realized[i as int] <= self.predicted[i as int]);
            }
            if n > 0 {
                proof {
                    lemma_prod2_bound(r as int, SCALE as int, n as int, SCALE as int);
                    lemma_div_bounds((r * SCALE) as int, 0, SCALE as int, n as int);
                    assert(SCALE as int * n == n * SCALE as int) by (nonlinear_arith);
                }
                let actual: u64 = ((r as u128 * SCALE as u128) / n as u128) as u64;
                let expected: u64 = (2 * i as u64 + 1) * 50_000;
                let gap: u64 = if expected >= actual { expected - actual } else { actual - expected };
                sum = sum + gap;
                count = count + 1;
            }
            i = i + 1;
        }
        proof {
            assert(self.predicted@.take(10) =~= self.predicted@);
            assert(self.realized@.take(10) =~= self.realized@);
        }
        if count == 0 {
            0
        } else {
            sum / count
        }
    }

    /// The calibrated probability for `prob`: `prob` itself before 50
    /// observations, then the value of its bucket.
    pub fn calibrate(&self, prob: i64) -> (r: i64)
        requires
            self.wf(),
            0 <= prob <= SCALE,
        ensures
            r == spec_calibrate(*self, prob as int),
    {
        if self.total < MIN_CALIBRATION_OBS {
            return prob;
        }
        let b = prob_to_bucket(prob);
        self.calibrated[b] as i64
    }
}

/// Bucket of a probability in millionths.
pub fn prob_to_bucket(prob: i64) -> (r: usize)
    requires
        0 <= prob <= SCALE,
    ensures
        r == bucket_of(prob as int),
        r < NUM_BUCKETS,
{
    let idx: i64 = prob / 100_000;
    if idx > 9 { 9 } else { idx as usize }
}

/// Calibrated probabilities stay within [0.001, 0.999] whenever the raw
/// probability does, whatever the calibrator has seen.
pub proof fn lemma_calibrated_in_range(c: Calibrator, p: int)
    requires
        c.wf(),
        CAL_LO <= p <= CAL_HI,
    ensures
        CAL_LO <= spec_calibrate(c, p) <= CAL_HI,
{
    if c.total >= MIN_CALIBRATION_OBS {
        assert(0 <= bucket_of(p) < NUM_BUCKETS);
        assert(in_cal_range(c.calibrated@));
        assert(CAL_LO <= c.calibrated@[bucket_of(p)] <= CAL_HI);
    }
}

/// A model's clamped probability stays within [0.001, 0.999] after
/// calibration, whatever the raw value and the calibrator's history.
pub proof fn lemma_model_probability_in_range(c: Calibrator, raw: int)
    requires
        c.wf(),
    ensures
        CAL_LO <= spec_calibrate(c, crate::models::clamp_prob(raw)) <= CAL_HI,
{
    lemma_calibrated_in_range(c, crate::models::clamp_prob(raw));
}

/// The calibrated values never decrease from one bucket to the next, for
/// every calibrator built by `new` and `record`, with or without a refit.
pub proof fn lemma_calibration_monotone(c: Calibrator, i: int)
    requires
        c.wf(),
        0 <= i < NUM_BUCKETS - 1,
    ensures
        c.calibrated[i] <= c.calibrated[i + 1],
{
    assert(sorted_u64(c.calibrated@));
}

/// Before 50 observations calibration returns the raw probability.
pub proof fn lemma_calibration_identity_when_sparse(c: Calibrator, p: int)
    requires
        c.total < MIN_CALIBRATION_OBS,
    ensures
        spec_calibrate(c, p) == p,
{
}
} // verus!
