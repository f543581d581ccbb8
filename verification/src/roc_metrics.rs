use rayon::slice::ParallelSliceMut;
use vstd::prelude::*;

verus! {

/// One retained prediction: a score order key and its ground-truth label.
///
/// The score is carried as an integer order key: the caller encodes each
/// raw floating-point score as a `u64` whose ordering and equality agree
/// with the ordering of the raw scores, for example through the usual
/// order-preserving bit transform of an IEEE single-precision value.
#[derive(Clone, Copy, Debug)]
pub struct PredictElem {
    pub score: u64,
    pub target: i32,
}

/// The step-wise ROC curve: cumulative true-positive and false-positive
/// counts, one entry per threshold boundary, both starting at zero.
#[derive(Debug)]
pub struct RocData {
    pub tps: Vec<i32>,
    pub fps: Vec<i32>,
}

/// The failure a curve query can report: every input sample was filtered
/// out, so there is no element to anchor the threshold walk on.
#[derive(Clone, Copy, Debug, PartialEq, Eq, Structural)]
pub enum RocError {
    EmptyCollection,
}

/// An exact area value: the ratio `num / den`. A zero denominator encodes
/// the degenerate normalization (no positive or no negative samples),
/// whose floating-point reading is NaN.
#[derive(Clone, Copy, Debug, PartialEq, Eq, Structural)]
pub struct AucRatio {
    pub num: i128,
    pub den: i128,
}

/// Calculator for ROC-based metrics over an owned collection of samples.
pub struct RocMetrics {
    full_data: Vec<PredictElem>,
}

impl View for RocMetrics {
    type V = Seq<PredictElem>;

    closed spec fn view(&self) -> Seq<PredictElem> {
        self.full_data@
    }
}

/// Sum of the `target` fields of a sequence of predictions.
pub open spec fn sum_targets(s: Seq<PredictElem>) -> int
    decreases s.len(),
{
    if s.len() == 0 {
        0
    } else {
        sum_targets(s.drop_last()) + s.last().target
    }
}

/// Positional pairing of scores with targets, keeping exactly the pairs
/// whose target is non-negative, in their original relative order.
pub open spec fn filter_pairs(scores: Seq<u64>, targets: Seq<i32>) -> Seq<PredictElem>
    decreases scores.len(),
{
    if scores.len() == 0 || targets.len() == 0 {
        Seq::empty()
    } else {
        let rest = filter_pairs(scores.drop_last(), targets.drop_last());
        if targets.last() >= 0 {
            rest.push(PredictElem { score: scores.last(), target: targets.last() })
        } else {
            rest
        }
    }
}

/// The bounds under which the 32-bit accumulators of the curve walk cannot
/// overflow: every retained target is non-negative, and the element count
/// and the target sum both fit an `i32`.
pub open spec fn wf_data(s: Seq<PredictElem>) -> bool {
    &&& s.len() <= i32::MAX
    &&& forall|i: int| 0 <= i < s.len() ==> (#[trigger] s[i].target) >= 0
    &&& sum_targets(s) <= i32::MAX
}

/// The positions, in ascending order, at which a walk of `s` sees a score
/// that differs from its predecessor's: the interior threshold boundaries.
pub open spec fn change_indices(s: Seq<PredictElem>) -> Seq<int>
    decreases s.len(),
{
    if s.len() <= 1 {
        Seq::empty()
    } else {
        change_indices(s.drop_last()) + if s.last().score != s[s.len() - 2].score {
            seq![s.len() as int - 1]
        } else {
            Seq::empty()
        }
    }
}

/// All threshold boundaries of the curve: the leading seed position `0`,
/// every interior score change, and the terminal position `s.len()`.
pub open spec fn bpoints(s: Seq<PredictElem>) -> Seq<int> {
    seq![0int] + change_indices(s) + seq![s.len() as int]
}

/// The cumulative target sums of `s` read at each position of `idxs`.
pub open spec fn sums_at(s: Seq<PredictElem>, idxs: Seq<int>) -> Seq<int> {
    idxs.map(|k: int, i: int| sum_targets(s.take(i)))
}

/// The element counts minus the cumulative target sums of `s`, read at
/// each position of `idxs`.
pub open spec fn counts_at(s: Seq<PredictElem>, idxs: Seq<int>) -> Seq<int> {
    idxs.map(|k: int, i: int| i - sum_targets(s.take(i)))
}

/// The cumulative true-positive counts of the curve over `s`.
pub open spec fn spec_tps(s: Seq<PredictElem>) -> Seq<int> {
    sums_at(s, bpoints(s))
}

/// The cumulative false-positive counts of the curve over `s`.
pub open spec fn spec_fps(s: Seq<PredictElem>) -> Seq<int> {
    counts_at(s, bpoints(s))
}

/// A sequence of `i32` counters read as mathematical integers.
pub open spec fn as_ints(v: Seq<i32>) -> Seq<int> {
    v.map_values(|x: i32| x as int)
}

proof fn lemma_sum_take_succ(s: Seq<PredictElem>, m: int)
    requires
        0 <= m < s.len(),
    ensures
        sum_targets(s.take(m + 1)) == sum_targets(s.take(m)) + s[m].target,
{
    assert(s.take(m + 1).drop_last() =~= s.take(m));
    assert(s.take(m + 1).last() == s[m]);
}

proof fn lemma_sum_take_nonneg(s: Seq<PredictElem>, m: int)
    requires
        0 <= m <= s.len(),
        forall|i: int| 0 <= i < s.len() ==> (#[trigger] s[i].target) >= 0,
    ensures
        sum_targets(s.take(m)) >= 0,
    decreases m,
{
    if m > 0 {
        lemma_sum_take_succ(s, m - 1);
        lemma_sum_take_nonneg(s, m - 1);
    }
}

proof fn lemma_sum_take_le_total(s: Seq<PredictElem>, m: int)
    requires
        0 <= m <= s.len(),
        forall|i: int| 0 <= i < s.len() ==> (#[trigger] s[i].target) >= 0,
    ensures
        sum_targets(s.take(m)) <= sum_targets(s),
    decreases s.len() - m,
{
    if m == s.len() {
        assert(s.take(m) =~= s);
    } else {
        lemma_sum_take_succ(s, m);
        lemma_sum_take_le_total(s, m + 1);
    }
}

proof fn lemma_change_indices_step(s: Seq<PredictElem>, m: int)
    requires
        1 <= m < s.len(),
    ensures
        change_indices(s.take(m + 1)) == if s[m].score != s[m - 1].score {
            change_indices(s.take(m)).push(m)
        } else {
            change_indices(s.take(m))
        },
{
    let t = s.take(m + 1);
    assert(t.drop_last() =~= s.take(m));
    assert(t.last() == s[m]);
    assert(t[t.len() - 2] == s[m - 1]);
    if s[m].score != s[m - 1].score {
        assert(change_indices(s.take(m)) + seq![m] =~= change_indices(s.take(m)).push(m));
    } else {
        assert(change_indices(s.take(m)) + Seq::<int>::empty() =~= change_indices(s.take(m)));
    }
}

proof fn lemma_sums_at_push(s: Seq<PredictElem>, idxs: Seq<int>, i: int)
    ensures
        sums_at(s, idxs.push(i)) == sums_at(s, idxs).push(sum_targets(s.take(i))),
        counts_at(s, idxs.push(i)) == counts_at(s, idxs).push(i - sum_targets(s.take(i))),
{
    assert(sums_at(s, idxs.push(i)) =~= sums_at(s, idxs).push(sum_targets(s.take(i))));
    assert(counts_at(s, idxs.push(i)) =~= counts_at(s, idxs).push(i - sum_targets(s.take(i))));
}

proof fn lemma_as_ints_push(v: Seq<i32>, x: i32)
    ensures
        as_ints(v.push(x)) == as_ints(v).push(x as int),
{
    assert(as_ints(v.push(x)) =~= as_ints(v).push(x as int));
}

proof fn lemma_filter_pairs_props(scores: Seq<u64>, targets: Seq<i32>)
    requires
        scores.len() == targets.len(),
    ensures
        filter_pairs(scores, targets).len() <= scores.len(),
        forall|i: int|
            0 <= i < filter_pairs(scores, targets).len() ==> (#[trigger] filter_pairs(
                scores,
                targets,
            )[i].target) >= 0,
    decreases scores.len(),
{
    if scores.len() > 0 {
        lemma_filter_pairs_props(scores.drop_last(), targets.drop_last());
    }
}

proof fn lemma_filter_pairs_step(scores: Seq<u64>, targets: Seq<i32>, m: int)
    requires
        scores.len() == targets.len(),
        0 <= m < scores.len(),
    ensures
        filter_pairs(scores.take(m + 1), targets.take(m + 1)) == if targets[m] >= 0 {
            filter_pairs(scores.take(m), targets.take(m)).push(
                PredictElem { score: scores[m], target: targets[m] },
            )
        } else {
            filter_pairs(scores.take(m), targets.take(m))
        },
{
    assert(scores.take(m + 1).drop_last() =~= scores.take(m));
    assert(targets.take(m + 1).drop_last() =~= targets.take(m));
}

/// Scores never increase along the sequence: equal scores are contiguous
/// and the walk of `binary_roc` visits them highest first.
pub open spec fn sorted_desc(s: Seq<PredictElem>) -> bool {
    forall|i: int, j: int|
        #![trigger s[i].score, s[j].score]
        0 <= i <= j < s.len() ==> s[i].score >= s[j].score
}

/// The numerator of the trapezoidal area under the rational curve whose
/// points are `(x[k] / x_full, y[k] / y_full)`, accumulated from pair
/// `(i - 1, i)` onward. A pair of equal abscissae contributes nothing,
/// and the walk stops once the abscissa numerator has reached `x_full`,
/// the value that normalizes to one.
pub open spec fn trapz_num_from(y: Seq<int>, x: Seq<int>, x_full: int, i: int) -> int
    decreases y.len() - i,
{
    if i < 1 || i >= y.len() || i >= x.len() {
        0
    } else if x[i - 1] == x_full {
        0
    } else {
        (if x[i] != x[i - 1] {
            (x[i] - x[i - 1]) * (y[i - 1] + y[i])
        } else {
            0
        }) + trapz_num_from(y, x, x_full, i + 1)
    }
}

/// The numerator of the whole trapezoidal area, over a denominator of
/// `2 * y_full * x_full`.
pub open spec fn trapz_num(y: Seq<int>, x: Seq<int>, x_full: int) -> int {
    trapz_num_from(y, x, x_full, 1)
}

/// The AUC numerator for data in its stored order: the trapezoidal area
/// numerator of the curve normalized by its class totals.
pub open spec fn spec_auc_num(s: Seq<PredictElem>) -> int {
    trapz_num(spec_tps(s), spec_fps(s), s.len() - sum_targets(s))
}

/// The AUC denominator for data in its stored order: twice the product of
/// the class totals. Zero exactly when a class is empty, the NaN case.
pub open spec fn spec_auc_den(s: Seq<PredictElem>) -> int {
    2 * sum_targets(s) * (s.len() - sum_targets(s))
}

/// The ends of the curve: both count sequences have one entry per
/// threshold boundary, open at `0` and close at the class totals.
pub proof fn lemma_curve_ends(s: Seq<PredictElem>)
    ensures
        spec_tps(s).len() == bpoints(s).len(),
        spec_fps(s).len() == bpoints(s).len(),
        bpoints(s).len() >= 2,
        spec_tps(s)[0] == 0,
        spec_fps(s)[0] == 0,
        spec_tps(s).last() == sum_targets(s),
        spec_fps(s).last() == s.len() - sum_targets(s),
{
    assert(s.take(s.len() as int) =~= s);
    assert(s.take(0) =~= Seq::<PredictElem>::empty());
    assert(bpoints(s)[0] == 0);
    assert(bpoints(s).last() == s.len() as int);
}

proof fn lemma_sum_take_mono(s: Seq<PredictElem>, a: int, b: int)
    requires
        0 <= a <= b <= s.len(),
        forall|i: int| 0 <= i < s.len() ==> (#[trigger] s[i].target) >= 0,
    ensures
        sum_targets(s.take(a)) <= sum_targets(s.take(b)),
    decreases b - a,
{
    if a < b {
        lemma_sum_take_succ(s, a);
        lemma_sum_take_mono(s, a + 1, b);
    }
}

proof fn lemma_count_take_mono(s: Seq<PredictElem>, a: int, b: int)
    requires
        0 <= a <= b <= s.len(),
        forall|i: int| 0 <= i < s.len() ==> (#[trigger] s[i].target) <= 1,
    ensures
        a - sum_targets(s.take(a)) <= b - sum_targets(s.take(b)),
    decreases b - a,
{
    if a < b {
        lemma_sum_take_succ(s, a);
        lemma_count_take_mono(s, a + 1, b);
    }
}

proof fn lemma_change_indices_props(s: Seq<PredictElem>)
    ensures
        forall|k: int|
            0 <= k < change_indices(s).len() ==> 1 <= #[trigger] change_indices(s)[k] < s.len(),
        forall|a: int, b: int|
            #![trigger change_indices(s)[a], change_indices(s)[b]]
            0 <= a < b < change_indices(s).len() ==> change_indices(s)[a] < change_indices(
                s,
            )[b],
    decreases s.len(),
{
    if s.len() > 1 {
        lemma_change_indices_props(s.drop_last());
        let prev = change_indices(s.drop_last());
        let ci = change_indices(s);
        assert forall|k: int| 0 <= k < ci.len() implies 1 <= #[trigger] ci[k] < s.len() by {
            if k < prev.len() {
                assert(ci[k] == prev[k]);
                assert(1 <= prev[k] < s.drop_last().len());
            } else {
                assert(ci[k] == s.len() as int - 1);
            }
        }
        assert forall|a: int, b: int|
            #![trigger ci[a], ci[b]]
            0 <= a < b < ci.len() implies ci[a] < ci[b] by {
            if b < prev.len() {
                assert(ci[a] == prev[a]);
                assert(ci[b] == prev[b]);
            } else {
                assert(a < prev.len());
                assert(ci[a] == prev[a]);
                assert(1 <= prev[a] < s.drop_last().len());
                assert(ci[b] == s.len() as int - 1);
            }
        }
    }
}

proof fn lemma_bpoints_props(s: Seq<PredictElem>)
    ensures
        bpoints(s).len() == change_indices(s).len() + 2,
        bpoints(s)[0] == 0,
        bpoints(s).last() == s.len(),
        forall|k: int| 0 <= k < bpoints(s).len() ==> 0 <= #[trigger] bpoints(s)[k] <= s.len(),
        forall|a: int, b: int|
            #![trigger bpoints(s)[a], bpoints(s)[b]]
            0 <= a <= b < bpoints(s).len() ==> bpoints(s)[a] <= bpoints(s)[b],
{
    lemma_change_indices_props(s);
    let ci = change_indices(s);
    let pb = bpoints(s);
    assert forall|k: int| 0 <= k < pb.len() implies 0 <= #[trigger] pb[k] <= s.len() by {
        if k == 0 {
            assert(pb[k] == 0);
        } else if k <= ci.len() {
            assert(pb[k] == ci[k - 1]);
        } else {
            assert(pb[k] == s.len() as int);
        }
    }
    assert forall|a: int, b: int|
        #![trigger pb[a], pb[b]]
        0 <= a <= b < pb.len() implies pb[a] <= pb[b] by {
        if a == 0 {
            assert(pb[a] == 0);
        } else if b == pb.len() - 1 {
            assert(pb[b] == s.len() as int);
        } else if a <= ci.len() && b <= ci.len() {
            assert(pb[a] == ci[a - 1]);
            assert(pb[b] == ci[b - 1]);
        }
    }
}

/// The shape every curve over binary-labelled data has: both sequences
/// are as long as the boundary list, start at zero, never decrease, and
/// end at the class totals (`sum_targets`, the number of positives, and
/// the remainder, the number of negatives).
pub proof fn lemma_curve_shape(s: Seq<PredictElem>)
    requires
        forall|i: int| 0 <= i < s.len() ==> 0 <= (#[trigger] s[i].target) <= 1,
    ensures
        spec_tps(s).len() == spec_fps(s).len(),
        spec_tps(s).len() >= 2,
        spec_tps(s)[0] == 0,
        spec_fps(s)[0] == 0,
        forall|k: int|
            0 <= k < spec_tps(s).len() - 1 ==> #[trigger] spec_tps(s)[k] <= spec_tps(s)[k + 1],
        forall|k: int|
            0 <= k < spec_fps(s).len() - 1 ==> #[trigger] spec_fps(s)[k] <= spec_fps(s)[k + 1],
        spec_tps(s).last() == sum_targets(s),
        spec_fps(s).last() == s.len() - sum_targets(s),
{
    lemma_curve_ends(s);
    lemma_bpoints_props(s);
    let pb = bpoints(s);
    assert forall|k: int| 0 <= k < spec_tps(s).len() - 1 implies #[trigger] spec_tps(s)[k]
        <= spec_tps(s)[k + 1] by {
        assert(pb[k] <= pb[k + 1]);
        lemma_sum_take_mono(s, pb[k], pb[k + 1]);
    }
    assert forall|k: int| 0 <= k < spec_fps(s).len() - 1 implies #[trigger] spec_fps(s)[k]
        <= spec_fps(s)[k + 1] by {
        assert(pb[k] <= pb[k + 1]);
        lemma_count_take_mono(s, pb[k], pb[k + 1]);
    }
}

/// Filtering really hides a sample: a pair whose target carries the
/// negative sentinel may as well not have been passed in at all — the
/// retained data, and with it every curve count and total, is the same
/// with the pair removed from the inputs.
pub proof fn lemma_filter_removes_invalid(scores: Seq<u64>, targets: Seq<i32>, j: int)
    requires
        scores.len() == targets.len(),
        0 <= j < targets.len(),
        targets[j] < 0,
    ensures
        filter_pairs(scores, targets) == filter_pairs(scores.remove(j), targets.remove(j)),
        spec_tps(filter_pairs(scores, targets)) == spec_tps(
            filter_pairs(scores.remove(j), targets.remove(j)),
        ),
        spec_fps(filter_pairs(scores, targets)) == spec_fps(
            filter_pairs(scores.remove(j), targets.remove(j)),
        ),
    decreases scores.len(),
{
    if j == scores.len() - 1 {
        assert(scores.remove(j) =~= scores.drop_last());
        assert(targets.remove(j) =~= targets.drop_last());
    } else {
        assert(scores.remove(j).drop_last() =~= scores.drop_last().remove(j));
        assert(targets.remove(j).drop_last() =~= targets.drop_last().remove(j));
        assert(scores.remove(j).last() == scores.last());
        assert(targets.remove(j).last() == targets.last());
        lemma_filter_removes_invalid(scores.drop_last(), targets.drop_last(), j);
    }
}

/// Targets are the indicator of standing left of the split `p`: ones
/// strictly before it, zeros from it on.
pub open spec fn prefix_ones(s: Seq<PredictElem>, p: int) -> bool {
    forall|i: int|
        0 <= i < s.len() ==> (#[trigger] s[i].target) == if i < p {
            1int
        } else {
            0int
        }
}

/// Targets are the indicator of standing right of the split `z`: zeros
/// strictly before it, ones from it on.
pub open spec fn prefix_zeros(s: Seq<PredictElem>, z: int) -> bool {
    forall|i: int|
        0 <= i < s.len() ==> (#[trigger] s[i].target) == if i < z {
            0int
        } else {
            1int
        }
}

proof fn lemma_sum_binary_bounds(s: Seq<PredictElem>)
    requires
        forall|i: int| 0 <= i < s.len() ==> 0 <= (#[trigger] s[i].target) <= 1,
    ensures
        0 <= sum_targets(s) <= s.len(),
    decreases s.len(),
{
    if s.len() > 0 {
        lemma_sum_binary_bounds(s.drop_last());
    }
}

proof fn lemma_sum_prefix_ones(s: Seq<PredictElem>, p: int)
    requires
        0 <= p <= s.len(),
        prefix_ones(s, p),
    ensures
        sum_targets(s) == p,
    decreases s.len(),
{
    if s.len() == 0 {
    } else if p == s.len() {
        assert(prefix_ones(s.drop_last(), p - 1));
        lemma_sum_prefix_ones(s.drop_last(), p - 1);
    } else {
        assert(prefix_ones(s.drop_last(), p));
        lemma_sum_prefix_ones(s.drop_last(), p);
    }
}

proof fn lemma_sum_take_prefix_ones(s: Seq<PredictElem>, p: int, m: int)
    requires
        0 <= p <= s.len(),
        prefix_ones(s, p),
        0 <= m <= s.len(),
    ensures
        sum_targets(s.take(m)) == if m <= p {
            m
        } else {
            p
        },
{
    if m <= p {
        assert(prefix_ones(s.take(m), m));
        lemma_sum_prefix_ones(s.take(m), m);
    } else {
        assert(prefix_ones(s.take(m), p));
        lemma_sum_prefix_ones(s.take(m), p);
    }
}

proof fn lemma_bpoints_strict(s: Seq<PredictElem>)
    requires
        s.len() >= 1,
    ensures
        forall|a: int, b: int|
            #![trigger bpoints(s)[a], bpoints(s)[b]]
            0 <= a < b < bpoints(s).len() ==> bpoints(s)[a] < bpoints(s)[b],
{
    lemma_change_indices_props(s);
    let ci = change_indices(s);
    let pb = bpoints(s);
    assert forall|a: int, b: int|
        #![trigger pb[a], pb[b]]
        0 <= a < b < pb.len() implies pb[a] < pb[b] by {
        if a == 0 {
            assert(pb[a] == 0);
            if b <= ci.len() {
                assert(pb[b] == ci[b - 1]);
            } else {
                assert(pb[b] == s.len() as int);
            }
        } else if b == pb.len() - 1 {
            assert(pb[b] == s.len() as int);
            if a <= ci.len() {
                assert(pb[a] == ci[a - 1]);
            }
        } else {
            assert(pb[a] == ci[a - 1]);
            assert(pb[b] == ci[b - 1]);
        }
    }
}

proof fn lemma_change_indices_complete(s: Seq<PredictElem>, m: int)
    requires
        1 <= m < s.len(),
        s[m].score != s[m - 1].score,
    ensures
        change_indices(s).contains(m),
    decreases s.len(),
{
    let prev = change_indices(s.drop_last());
    if m == s.len() - 1 {
        assert(change_indices(s)[prev.len() as int] == m);
    } else {
        lemma_change_indices_complete(s.drop_last(), m);
        let k = choose|k: int| 0 <= k < prev.len() && prev[k] == m;
        assert(change_indices(s)[k] == m);
    }
}

proof fn lemma_no_straddle(s: Seq<PredictElem>, m: int, k: int)
    requires
        s.len() >= 1,
        change_indices(s).contains(m),
        0 <= k < bpoints(s).len() - 1,
    ensures
        !(bpoints(s)[k] < m && m < bpoints(s)[k + 1]),
{
    lemma_bpoints_props(s);
    let ci = change_indices(s);
    let pb = bpoints(s);
    let t = choose|t: int| 0 <= t < ci.len() && ci[t] == m;
    assert(pb[t + 1] == m);
    if pb[k] < m && m < pb[k + 1] {
        if t + 1 <= k {
            assert(pb[t + 1] <= pb[k]);
        } else {
            assert(pb[k + 1] <= pb[t + 1]);
        }
        assert(false);
    }
}

proof fn lemma_perfect_prefix(s: Seq<PredictElem>)
    requires
        sorted_desc(s),
        forall|i: int| 0 <= i < s.len() ==> 0 <= (#[trigger] s[i].target) <= 1,
        forall|i: int, j: int|
            #![trigger s[i].target, s[j].target]
            0 <= i < s.len() && 0 <= j < s.len() && s[i].target == 1 && s[j].target == 0 ==> s[i].score > s[j].score,
    ensures
        0 <= sum_targets(s) <= s.len(),
        prefix_ones(s, sum_targets(s)),
    decreases s.len(),
{
    lemma_sum_binary_bounds(s);
    if s.len() > 0 {
        let sp = s.drop_last();
        assert forall|i: int| 0 <= i < sp.len() implies 0 <= (#[trigger] sp[i].target) <= 1 by {
            assert(sp[i] == s[i]);
        }
        assert forall|i: int, j: int|
            #![trigger sp[i].target, sp[j].target]
            0 <= i < sp.len() && 0 <= j < sp.len() && sp[i].target == 1 && sp[j].target
                == 0 implies sp[i].score > sp[j].score by {
            assert(sp[i] == s[i]);
            assert(sp[j] == s[j]);
        }
        assert forall|i: int, j: int|
            #![trigger sp[i].score, sp[j].score]
            0 <= i <= j < sp.len() implies sp[i].score >= sp[j].score by {
            assert(sp[i] == s[i]);
            assert(sp[j] == s[j]);
        }
        lemma_perfect_prefix(sp);
        let q = sum_targets(sp);
        let last = s.len() - 1;
        if s[last].target == 1 {
            if q < sp.len() {
                assert(sp[q].target == 0);
                assert(s[q].target == 0);
                assert(s[last].score > s[q].score);
                assert(s[q].score >= s[last].score);
                assert(false);
            }
            assert(sum_targets(s) == q + 1);
            assert forall|i: int| 0 <= i < s.len() implies (#[trigger] s[i].target) == (if i < q
                + 1 {
                1int
            } else {
                0int
            }) by {
                if i < last {
                    assert(sp[i] == s[i]);
                    assert(sp[i].target == if i < q {
                        1int
                    } else {
                        0int
                    });
                }
            }
        } else {
            assert(sum_targets(s) == q);
            assert forall|i: int| 0 <= i < s.len() implies (#[trigger] s[i].target) == (if i < q {
                1int
            } else {
                0int
            }) by {
                if i < last {
                    assert(sp[i] == s[i]);
                    assert(sp[i].target == if i < q {
                        1int
                    } else {
                        0int
                    });
                }
            }
        }
    }
}

proof fn lemma_trapz_perfect_from(s: Seq<PredictElem>, p: int, k: int)
    requires
        prefix_ones(s, p),
        1 <= p < s.len(),
        change_indices(s).contains(p),
        1 <= k <= spec_tps(s).len(),
    ensures
        trapz_num_from(spec_tps(s), spec_fps(s), s.len() - p, k) == 2 * p * ((s.len() - p)
            - spec_fps(s)[k - 1]),
    decreases spec_tps(s).len() - k,
{
    lemma_bpoints_props(s);
    lemma_bpoints_strict(s);
    lemma_curve_ends(s);
    let pb = bpoints(s);
    let tt = spec_tps(s);
    let ff = spec_fps(s);
    let n = s.len() - p;
    assert forall|m: int| 0 <= m < pb.len() implies (#[trigger] tt[m]) == (if pb[m] <= p {
        pb[m]
    } else {
        p
    }) by {
        lemma_sum_take_prefix_ones(s, p, pb[m]);
    }
    assert forall|m: int| 0 <= m < pb.len() implies (#[trigger] ff[m]) == (if pb[m] <= p {
        0int
    } else {
        pb[m] - p
    }) by {
        lemma_sum_take_prefix_ones(s, p, pb[m]);
    }
    if k == tt.len() {
        assert(trapz_num_from(tt, ff, n, k) == 0);
        assert(ff[k - 1] == n);
        let b = ff[k - 1];
        assert(2 * p * (n - b) == 0) by (nonlinear_arith)
            requires
                b == n,
        ;
    } else {
        assert(ff[k - 1] != n) by {
            if ff[k - 1] == n {
                assert(pb[k - 1] == s.len() as int);
                assert(pb[k - 1] < pb[pb.len() - 1]);
            }
        }
        lemma_trapz_perfect_from(s, p, k + 1);
        assert(trapz_num_from(tt, ff, n, k) == (if ff[k] != ff[k - 1] {
            (ff[k] - ff[k - 1]) * (tt[k - 1] + tt[k])
        } else {
            0
        }) + trapz_num_from(tt, ff, n, k + 1));
        let a = ff[k];
        let b = ff[k - 1];
        if a != b {
            lemma_no_straddle(s, p, k - 1);
            assert(pb[k] > p);
            assert(pb[k - 1] >= p);
            assert(tt[k - 1] == p && tt[k] == p);
            assert((a - b) * (p + p) + 2 * p * (n - a) == 2 * p * (n - b)) by (nonlinear_arith);
        } else {
            assert(2 * p * (n - a) == 2 * p * (n - b));
        }
    }
}

/// A perfect separator — every positive sample scored above every
/// negative one — has, once sorted descending, an AUC of exactly one:
/// the area numerator equals the (positive) denominator.
pub proof fn lemma_auc_perfect_separator(s: Seq<PredictElem>)
    requires
        sorted_desc(s),
        forall|i: int| 0 <= i < s.len() ==> 0 <= (#[trigger] s[i].target) <= 1,
        forall|i: int, j: int|
            #![trigger s[i].target, s[j].target]
            0 <= i < s.len() && 0 <= j < s.len() && s[i].target == 1 && s[j].target == 0 ==> s[i].score > s[j].score,
        exists|i: int| 0 <= i < s.len() && (#[trigger] s[i].target) == 1,
        exists|j: int| 0 <= j < s.len() && (#[trigger] s[j].target) == 0,
    ensures
        spec_auc_den(s) > 0,
        spec_auc_num(s) == spec_auc_den(s),
{
    lemma_perfect_prefix(s);
    let p = sum_targets(s);
    let wi = choose|i: int| 0 <= i < s.len() && (#[trigger] s[i].target) == 1;
    assert(wi < p);
    let wj = choose|j: int| 0 <= j < s.len() && (#[trigger] s[j].target) == 0;
    assert(wj >= p);
    assert(s[p - 1].target == 1);
    assert(s[p].target == 0);
    assert(s[p - 1].score > s[p].score);
    lemma_change_indices_complete(s, p);
    lemma_trapz_perfect_from(s, p, 1);
    lemma_curve_ends(s);
    lemma_bpoints_props(s);
    assert(spec_fps(s)[0] == 0);
    let n = s.len() - p;
    assert(2 * p * n > 0) by (nonlinear_arith)
        requires
            1 <= p,
            1 <= n,
    ;
}

proof fn lemma_inverted_prefix(s: Seq<PredictElem>)
    requires
        sorted_desc(s),
        forall|i: int| 0 <= i < s.len() ==> 0 <= (#[trigger] s[i].target) <= 1,
        forall|i: int, j: int|
            #![trigger s[i].target, s[j].target]
            0 <= i < s.len() && 0 <= j < s.len() && s[i].target == 0 && s[j].target == 1 ==> s[i].score > s[j].score,
    ensures
        0 <= sum_targets(s) <= s.len(),
        prefix_zeros(s, s.len() - sum_targets(s)),
    decreases s.len(),
{
    lemma_sum_binary_bounds(s);
    if s.len() > 0 {
        let sp = s.drop_last();
        assert forall|i: int| 0 <= i < sp.len() implies 0 <= (#[trigger] sp[i].target) <= 1 by {
            assert(sp[i] == s[i]);
        }
        assert forall|i: int, j: int|
            #![trigger sp[i].target, sp[j].target]
            0 <= i < sp.len() && 0 <= j < sp.len() && sp[i].target == 0 && sp[j].target
                == 1 implies sp[i].score > sp[j].score by {
            assert(sp[i] == s[i]);
            assert(sp[j] == s[j]);
        }
        assert forall|i: int, j: int|
            #![trigger sp[i].score, sp[j].score]
            0 <= i <= j < sp.len() implies sp[i].score >= sp[j].score by {
            assert(sp[i] == s[i]);
            assert(sp[j] == s[j]);
        }
        lemma_inverted_prefix(sp);
        let zp = sp.len() - sum_targets(sp);
        let last = s.len() - 1;
        if s[last].target == 0 {
            if zp < sp.len() {
                assert(sp[zp as int].target == 1);
                assert(s[zp as int].target == 1);
                assert(s[last].score > s[zp as int].score);
                assert(s[zp as int].score >= s[last].score);
                assert(false);
            }
            assert(sum_targets(s) == sum_targets(sp));
            assert(sum_targets(sp) == 0);
            assert forall|i: int| 0 <= i < s.len() implies (#[trigger] s[i].target) == (if i
                < s.len() {
                0int
            } else {
                1int
            }) by {
                if i < last {
                    assert(sp[i] == s[i]);
                    assert(sp[i].target == if i < zp {
                        0int
                    } else {
                        1int
                    });
                }
            }
        } else {
            assert(sum_targets(s) == sum_targets(sp) + 1);
            assert forall|i: int| 0 <= i < s.len() implies (#[trigger] s[i].target) == (if i < zp {
                0int
            } else {
                1int
            }) by {
                if i < last {
                    assert(sp[i] == s[i]);
                    assert(sp[i].target == if i < zp {
                        0int
                    } else {
                        1int
                    });
                }
            }
        }
    }
}

proof fn lemma_trapz_inverted_from(s: Seq<PredictElem>, z: int, k: int)
    requires
        prefix_zeros(s, z),
        1 <= z < s.len(),
        change_indices(s).contains(z),
        1 <= k <= spec_tps(s).len(),
    ensures
        trapz_num_from(spec_tps(s), spec_fps(s), z, k) == 0,
    decreases spec_tps(s).len() - k,
{
    lemma_bpoints_props(s);
    lemma_curve_ends(s);
    let pb = bpoints(s);
    let tt = spec_tps(s);
    let ff = spec_fps(s);
    assert forall|m: int| 0 <= m < pb.len() implies (#[trigger] tt[m]) == (if pb[m] <= z {
        0int
    } else {
        pb[m] - z
    }) by {
        lemma_sum_take_prefix_zeros(s, z, pb[m]);
    }
    assert forall|m: int| 0 <= m < pb.len() implies (#[trigger] ff[m]) == (if pb[m] <= z {
        pb[m]
    } else {
        z
    }) by {
        lemma_sum_take_prefix_zeros(s, z, pb[m]);
    }
    if k < tt.len() {
        if ff[k - 1] != z {
            assert(pb[k - 1] < z);
            lemma_no_straddle(s, z, k - 1);
            assert(pb[k] <= z);
            assert(tt[k - 1] == 0 && tt[k] == 0);
            lemma_trapz_inverted_from(s, z, k + 1);
        }
    }
}

/// A perfectly inverted separator — every negative sample scored above
/// every positive one — has, once sorted descending, an AUC of exactly
/// zero: the area numerator vanishes while the denominator is positive.
pub proof fn lemma_auc_inverted_separator(s: Seq<PredictElem>)
    requires
        sorted_desc(s),
        forall|i: int| 0 <= i < s.len() ==> 0 <= (#[trigger] s[i].target) <= 1,
        forall|i: int, j: int|
            #![trigger s[i].target, s[j].target]
            0 <= i < s.len() && 0 <= j < s.len() && s[i].target == 0 && s[j].target == 1 ==> s[i].score > s[j].score,
        exists|i: int| 0 <= i < s.len() && (#[trigger] s[i].target) == 1,
        exists|j: int| 0 <= j < s.len() && (#[trigger] s[j].target) == 0,
    ensures
        spec_auc_den(s) > 0,
        spec_auc_num(s) == 0,
{
    lemma_inverted_prefix(s);
    let p = sum_targets(s);
    let z = s.len() - p;
    let wi = choose|i: int| 0 <= i < s.len() && (#[trigger] s[i].target) == 1;
    assert(wi >= z);
    let wj = choose|j: int| 0 <= j < s.len() && (#[trigger] s[j].target) == 0;
    assert(wj < z);
    assert(s[z - 1].target == 0);
    assert(s[z as int].target == 1);
    assert(s[z - 1].score > s[z as int].score);
    lemma_change_indices_complete(s, z);
    lemma_curve_ends(s);
    lemma_trapz_inverted_from(s, z, 1);
    assert(2 * p * z > 0) by (nonlinear_arith)
        requires
            1 <= p,
            1 <= z,
    ;
}

proof fn lemma_sum_take_prefix_zeros(s: Seq<PredictElem>, z: int, m: int)
    requires
        0 <= z <= s.len(),
        prefix_zeros(s, z),
        0 <= m <= s.len(),
    ensures
        sum_targets(s.take(m)) == if m <= z {
            0int
        } else {
            m - z
        },
{
    if m <= z {
        assert(prefix_zeros(s.take(m), m));
        lemma_sum_prefix_zeros(s.take(m), m);
    } else {
        assert(prefix_zeros(s.take(m), z));
        lemma_sum_prefix_zeros(s.take(m), z);
    }
}

proof fn lemma_sum_prefix_zeros(s: Seq<PredictElem>, z: int)
    requires
        0 <= z <= s.len(),
        prefix_zeros(s, z),
    ensures
        sum_targets(s) == s.len() - z,
    decreases s.len(),
{
    if s.len() == 0 {
    } else if z == s.len() {
        assert(prefix_zeros(s.drop_last(), z - 1));
        lemma_sum_prefix_zeros(s.drop_last(), z - 1);
    } else {
        assert(prefix_zeros(s.drop_last(), z));
        lemma_sum_prefix_zeros(s.drop_last(), z);
    }
}

/// Round trip of the two queries: the AUC ratio `compute_roc_auc`
/// reports for data in a given order is exactly the trapezoidal integral
/// of the curve `binary_roc` yields on that same data, normalized by the
/// curve's own terminal counts.
pub proof fn lemma_auc_round_trip(s: Seq<PredictElem>)
    ensures
        spec_auc_num(s) == trapz_num(spec_tps(s), spec_fps(s), spec_fps(s).last()),
        spec_auc_den(s) == 2 * spec_tps(s).last() * spec_fps(s).last(),
{
    lemma_curve_ends(s);
}

proof fn lemma_change_indices_len(s: Seq<PredictElem>)
    ensures
        change_indices(s).len() <= s.len(),
    decreases s.len(),
{
    if s.len() > 1 {
        lemma_change_indices_len(s.drop_last());
    }
}

proof fn lemma_sum_targets_remove(s: Seq<PredictElem>, j: int)
    requires
        0 <= j < s.len(),
    ensures
        sum_targets(s.remove(j)) == sum_targets(s) - s[j].target,
    decreases s.len(),
{
    if j == s.len() - 1 {
        assert(s.remove(j) =~= s.drop_last());
    } else {
        assert(s.remove(j).drop_last() =~= s.drop_last().remove(j));
        assert(s.remove(j).last() == s.last());
        lemma_sum_targets_remove(s.drop_last(), j);
    }
}

proof fn lemma_sum_targets_permutation(s: Seq<PredictElem>, t: Seq<PredictElem>)
    requires
        s.to_multiset() == t.to_multiset(),
    ensures
        sum_targets(s) == sum_targets(t),
    decreases s.len(),
{
    broadcast use vstd::seq_lib::group_to_multiset_ensures;

    if s.len() == 0 {
        assert(t.to_multiset().len() == 0);
    } else {
        let x = s.last();
        assert(s[s.len() - 1] == x);
        assert(s.contains(x));
        assert(t.to_multiset().count(x) > 0);
        assert(t.contains(x));
        let j = choose|j: int| 0 <= j < t.len() && t[j] == x;
        assert(s.drop_last() =~= s.remove(s.len() - 1));
        assert(s.drop_last().to_multiset() == s.to_multiset().remove(x));
        assert(t.remove(j).to_multiset() == t.to_multiset().remove(x));
        lemma_sum_targets_permutation(s.drop_last(), t.remove(j));
        lemma_sum_targets_remove(t, j);
    }
}

proof fn lemma_wf_permutation(s: Seq<PredictElem>, t: Seq<PredictElem>)
    requires
        wf_data(s),
        s.to_multiset() == t.to_multiset(),
    ensures
        wf_data(t),
        t.len() == s.len(),
        sum_targets(t) == sum_targets(s),
{
    broadcast use vstd::seq_lib::group_to_multiset_ensures;

    assert(t.len() == t.to_multiset().len());
    assert(s.len() == s.to_multiset().len());
    assert forall|i: int| 0 <= i < t.len() implies (#[trigger] t[i].target) >= 0 by {
        assert(t.contains(t[i]));
        assert(s.to_multiset().count(t[i]) > 0);
        assert(s.contains(t[i]));
        let j = choose|j: int| 0 <= j < s.len() && s[j] == t[i];
        assert(s[j].target >= 0);
    }
    lemma_sum_targets_permutation(s, t);
}

/// Relies on rayon's `ParallelSliceMut::par_sort_unstable_by`: after the
/// call the vector is ordered by the given comparator (here descending by
/// score key) and holds exactly the old elements, possibly rearranged;
/// the order among equal scores is unspecified.
#[verifier::external_body]
fn sort_by_score_desc(v: &mut Vec<PredictElem>)
    ensures
        sorted_desc(final(v)@),
        final(v)@.to_multiset() == old(v)@.to_multiset(),
{
    v.par_sort_unstable_by(|a, b| b.score.cmp(&a.score));
}

/// Trapezoidal integration of a discrete curve given in exact rational
/// coordinates: point `k` of the curve is `(x[k] / x_full, y[k] / y_full)`.
/// Returns the area as the ratio `num / (2 * y_full * x_full)`.
///
/// Pairs of equal abscissae are skipped, and the walk ends early once the
/// abscissa reaches `x_full`, that is, a normalized value of one.
pub fn trapz(y: &Vec<i32>, x: &Vec<i32>, y_full: i32, x_full: i32) -> (r: AucRatio)
    requires
        x@.len() == y@.len(),
        1 <= y@.len() < 0x1_0000_0000,
    ensures
        r.num == trapz_num(as_ints(y@), as_ints(x@), x_full as int),
        r.den == 2 * (y_full as int) * (x_full as int),
{
    let ghost yy = as_ints(y@);
    let ghost xx = as_ints(x@);
    let ghost xf = x_full as int;
    let len = y.len();
    let mut ret: i128 = 0;
    let mut i: usize = 1;
    while i < len
        invariant_except_break
            1 <= i <= len,
            len == y@.len(),
            x@.len() == len,
            len < 0x1_0000_0000,
            yy == as_ints(y@),
            xx == as_ints(x@),
            xf == x_full as int,
            ret == trapz_num(yy, xx, xf) - trapz_num_from(yy, xx, xf, i as int),
            -(i as int - 1) * 0x1_0000_0000_0000_0000 <= ret <= (i as int - 1)
                * 0x1_0000_0000_0000_0000,
        ensures
            ret == trapz_num(yy, xx, xf),
        decreases len - i,
    {
        if x[i - 1] == x_full {
            proof {
                assert(trapz_num_from(yy, xx, xf, i as int) == 0);
            }
            break;
        }
        if x[i] != x[i - 1] {
            let dx: i128 = (x[i] as i128) - (x[i - 1] as i128);
            let ysum: i128 = (y[i - 1] as i128) + (y[i] as i128);
            proof {
                assert(-0x1_0000_0000_0000_0000 <= dx * ysum <= 0x1_0000_0000_0000_0000)
                    by (nonlinear_arith)
                    requires
                        -0xffff_ffff <= dx <= 0xffff_ffff,
                        -0x1_0000_0000 <= ysum <= 0x1_0000_0000,
                ;
            }
            ret = ret + dx * ysum;
        }
        proof {
            assert(trapz_num_from(yy, xx, xf, i as int) == (if xx[i as int] != xx[i as int - 1] {
                (xx[i as int] - xx[i as int - 1]) * (yy[i as int - 1] + yy[i as int])
            } else {
                0
            }) + trapz_num_from(yy, xx, xf, i as int + 1));
        }
        i = i + 1;
    }
    let two_y: i128 = 2 * (y_full as i128);
    proof {
        assert(-0x8000_0000_0000_0000 <= two_y * (x_full as i128) <= 0x8000_0000_0000_0000)
            by (nonlinear_arith)
            requires
                -0x1_0000_0000 <= two_y <= 0x1_0000_0000,
                -0x8000_0000 <= x_full as i128 <= 0x8000_0000,
        ;
    }
    let den: i128 = two_y * (x_full as i128);
    AucRatio { num: ret, den }
}

impl RocMetrics {
    /// The engine's data is exactly the filtered pairing of its inputs and
    /// satisfies the accumulator bounds.
    pub open spec fn wf(self) -> bool {
        wf_data(self@)
    }

    /// Builds the engine from positional (score, target) pairs, dropping
    /// every pair whose target is negative (the "not a sample" sentinel).
    ///
    /// The caller must supply more than one pair of each kind, in equal
    /// numbers; the count and the retained target sum must fit an `i32`,
    /// the width of the curve's counters.
    pub fn new(scores: &Vec<u64>, targets: &Vec<i32>) -> (r: RocMetrics)
        requires
            scores@.len() > 1,
            targets@.len() == scores@.len(),
            scores@.len() <= i32::MAX,
            sum_targets(filter_pairs(scores@, targets@)) <= i32::MAX,
        ensures
            r@ == filter_pairs(scores@, targets@),
            r.wf(),
    {
        let n = scores.len();
        let mut full_data: Vec<PredictElem> = Vec::new();
        let mut i: usize = 0;
        while i < n
            invariant
                i <= n,
                n == scores@.len(),
                targets@.len() == n,
                full_data@ == filter_pairs(scores@.take(i as int), targets@.take(i as int)),
            decreases n - i,
        {
            let t = targets[i];
            if t >= 0 {
                full_data.push(PredictElem { score: scores[i], target: t });
            }
            proof {
                lemma_filter_pairs_step(scores@, targets@, i as int);
            }
            i += 1;
        }
        proof {
            assert(scores@.take(n as int) =~= scores@);
            assert(targets@.take(n as int) =~= targets@);
            lemma_filter_pairs_props(scores@, targets@);
        }
        RocMetrics { full_data }
    }

    /// Derives the step-wise ROC curve from the samples in their current
    /// stored order: one pass that appends a `(tps, fps)` boundary wherever
    /// the score changes between neighbours, plus the seed `(0, 0)` entry
    /// and a terminal entry holding the full totals.
    ///
    /// Adjacency is all it inspects, so the result is a valid ROC curve
    /// only when equal scores are stored contiguously in descending order,
    /// as they are after `compute_roc_auc` has sorted the collection.
    pub fn binary_roc(&self) -> (r: Result<RocData, RocError>)
        requires
            self.wf(),
        ensures
            self@.len() == 0 <==> r is Err,
            match r {
                Ok(data) => as_ints(data.tps@) == spec_tps(self@) && as_ints(data.fps@)
                    == spec_fps(self@),
                Err(e) => e == RocError::EmptyCollection,
            },
    {
        let n = self.full_data.len();
        if n == 0 {
            return Err(RocError::EmptyCollection);
        }
        let mut tps: Vec<i32> = Vec::new();
        let mut fps: Vec<i32> = Vec::new();
        tps.push(0);
        fps.push(0);
        proof {
            assert(as_ints(tps@) =~= sums_at(self@, seq![0int] + change_indices(self@.take(0))));
            assert(as_ints(fps@) =~= counts_at(self@, seq![0int] + change_indices(self@.take(0))));
        }
        let mut prev_score = self.full_data[0].score;
        let mut accum: i32 = 0;
        let mut idx: usize = 0;
        while idx < n
            invariant
                self.wf(),
                0 < n == self@.len(),
                idx <= n,
                0 <= accum,
                accum == sum_targets(self@.take(idx as int)),
                prev_score == self@[if idx == 0 {
                    0int
                } else {
                    idx as int - 1
                }].score,
                as_ints(tps@) == sums_at(self@, seq![0int] + change_indices(self@.take(idx as int))),
                as_ints(fps@) == counts_at(
                    self@,
                    seq![0int] + change_indices(self@.take(idx as int)),
                ),
            decreases n - idx,
        {
            let ghost s = self@;
            let ghost pb = seq![0int] + change_indices(s.take(idx as int));
            let cur = self.full_data[idx];
            if cur.score != prev_score {
                let f_val: i32 = (idx as i32) - accum;
                tps.push(accum);
                fps.push(f_val);
                proof {
                    lemma_change_indices_step(s, idx as int);
                    lemma_sums_at_push(s, pb, idx as int);
                    lemma_as_ints_push(tps@.drop_last(), accum);
                    lemma_as_ints_push(fps@.drop_last(), f_val);
                    assert(pb.push(idx as int) =~= seq![0int] + change_indices(
                        s.take(idx as int + 1),
                    ));
                }
            } else {
                proof {
                    if idx >= 1 {
                        lemma_change_indices_step(s, idx as int);
                    } else {
                        assert(change_indices(s.take(1)) =~= change_indices(s.take(0)));
                    }
                }
            }
            proof {
                lemma_sum_take_succ(s, idx as int);
                lemma_sum_take_le_total(s, idx as int + 1);
                lemma_sum_take_nonneg(s, idx as int + 1);
            }
            prev_score = cur.score;
            accum = accum + cur.target;
            idx = idx + 1;
        }
        proof {
            assert(self@.take(n as int) =~= self@);
        }
        let f_last: i32 = (n as i32) - accum;
        tps.push(accum);
        fps.push(f_last);
        proof {
            let s = self@;
            let pb = seq![0int] + change_indices(s);
            lemma_sums_at_push(s, pb, n as int);
            lemma_as_ints_push(tps@.drop_last(), accum);
            lemma_as_ints_push(fps@.drop_last(), f_last);
            assert(pb.push(n as int) =~= bpoints(s));
        }
        Ok(RocData { tps, fps })
    }

    /// Computes the exact Area Under the ROC Curve.
    ///
    /// First reorders the owned samples in place, descending by score —
    /// a side effect that persists, so a later `binary_roc` walks the
    /// sorted data — then derives the curve, normalizes both counts by
    /// their terminal totals, and integrates the normalized curve by the
    /// trapezoidal rule. The area comes back as an exact ratio; its
    /// denominator is zero exactly when a class is absent, the case whose
    /// floating-point reading is NaN.
    pub fn compute_roc_auc(&mut self) -> (r: Result<AucRatio, RocError>)
        requires
            old(self).wf(),
        ensures
            final(self).wf(),
            sorted_desc(final(self)@),
            final(self)@.to_multiset() == old(self)@.to_multiset(),
            final(self)@.len() == old(self)@.len(),
            sum_targets(final(self)@) == sum_targets(old(self)@),
            old(self)@.len() == 0 <==> r is Err,
            match r {
                Ok(a) => a.num == spec_auc_num(final(self)@) && a.den == spec_auc_den(
                    final(self)@,
                ),
                Err(e) => e == RocError::EmptyCollection,
            },
    {
        sort_by_score_desc(&mut self.full_data);
        proof {
            lemma_wf_permutation(old(self)@, self@);
        }
        let data = match self.binary_roc() {
            Ok(d) => d,
            Err(e) => {
                return Err(e);
            },
        };
        proof {
            lemma_curve_ends(self@);
            lemma_change_indices_len(self@);
        }
        let tlen = data.tps.len();
        let tp_count: i32 = data.tps[tlen - 1];
        let fp_count: i32 = data.fps[tlen - 1];
        let auc = trapz(&data.tps, &data.fps, tp_count, fp_count);
        Ok(auc)
    }
}

} // verus!
