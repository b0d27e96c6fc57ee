use vstd::prelude::*;

use crate::dataset::{point_prefix, KdTreeDataset};

verus! {

/// Bound on the magnitude of a per-dimension contribution (`2^64`).
pub open spec fn accum_limit() -> int {
    0x1_0000_0000_0000_0000
}

/// Largest number of dimensions a distance is summed over (`2^62`): no slice
/// of `i32` coordinates can be that long, as no allocation exceeds
/// `isize::MAX` bytes.
pub open spec fn max_dim() -> int {
    0x4000_0000_0000_0000
}

/// Sum of a sequence of integers.
pub open spec fn seq_sum(s: Seq<int>) -> int
    decreases s.len(),
{
    if s.len() == 0 {
        0
    } else {
        seq_sum(s.drop_last()) + s.last()
    }
}

/// The first prefix sum of `s` that exceeds `w`, or the sum of all of `s` when
/// none does.
pub open spec fn capped_sum(s: Seq<int>, w: int) -> int
    decreases s.len(),
{
    if s.len() == 0 {
        0
    } else {
        let p = capped_sum(s.drop_last(), w);
        if p > w {
            p
        } else {
            p + s.last()
        }
    }
}

/// A capped sum is the first running total of `s` that exceeds `w`, or the
/// whole sum when no running total does: it equals the sum of the first `i`
/// terms, where every shorter running total is at most `w`, and, unless all
/// terms are taken, that total exceeds `w`.
pub proof fn lemma_capped_sum_stops(s: Seq<int>, w: int)
    requires
        w >= 0,
    ensures
        exists|i: int|
            0 <= i <= s.len() && capped_sum(s, w) == #[trigger] seq_sum(s.take(i)) && (forall|j: int|
                0 <= j < i ==> #[trigger] seq_sum(s.take(j)) <= w) && (i < s.len() ==> seq_sum(s.take(i)) > w),
    decreases s.len(),
{
    if s.len() == 0 {
        assert(s.take(0) =~= s);
        assert(seq_sum(s.take(0)) == 0);
    } else {
        let t = s.drop_last();
        lemma_capped_sum_stops(t, w);
        let i = choose|i: int|
            0 <= i <= t.len() && capped_sum(t, w) == #[trigger] seq_sum(t.take(i)) && (forall|j: int|
                0 <= j < i ==> #[trigger] seq_sum(t.take(j)) <= w) && (i < t.len() ==> seq_sum(t.take(i)) > w);
        assert forall|j: int| 0 <= j <= t.len() implies #[trigger] s.take(j) == t.take(j) by {
            assert(s.take(j) =~= t.take(j));
        }
        assert(s.take(s.len() as int).drop_last() =~= t);
        assert(s.take(s.len() as int) =~= s);
        if capped_sum(t, w) > w {
            assert(s.take(i) == t.take(i));
            assert forall|j: int| 0 <= j < i implies #[trigger] seq_sum(s.take(j)) <= w by {
                assert(s.take(j) == t.take(j));
                assert(seq_sum(t.take(j)) <= w);
            }
            if i == t.len() {
                assert(seq_sum(t.take(i)) > w);
            }
        } else {
            // no running total of `t` exceeds `w`, so all of `t` was taken
            if i < t.len() {
                assert(seq_sum(t.take(i)) > w);
            }
            assert(i == t.len());
            assert(t.take(i) =~= t);
            assert forall|j: int| 0 <= j < s.len() implies #[trigger] seq_sum(s.take(j)) <= w by {
                assert(s.take(j) == t.take(j));
                if j < i {
                    assert(seq_sum(t.take(j)) <= w);
                } else {
                    assert(t.take(j) =~= t);
                }
            }
            assert(capped_sum(s, w) == seq_sum(s.take(s.len() as int)));
        }
    }
}

/// The value of a summing metric that stops once a positive `worst` bound is exceeded.
pub open spec fn abort_sum(terms: Seq<int>, worst: Option<i128>) -> int {
    match worst {
        Some(w) => if w > 0 { capped_sum(terms, w as int) } else { seq_sum(terms) },
        None => seq_sum(terms),
    }
}

/// Distance metric interface used by tree construction and pruning.
pub trait DistanceMetric: Sized {
    /// Per-dimension contribution between coordinates `a` and `b` in dimension `dim`.
    spec fn spec_accum(&self, a: i32, b: i32, dim: int) -> int;

    /// Full distance between two points given by equally long coordinate sequences.
    spec fn spec_metric(&self, query: Seq<i32>, point: Seq<i32>) -> int;

    /// Whether the metric is defined over points of `size` components.
    spec fn spec_accepts_size(&self, size: nat) -> bool;

    /// Whether the metric is the sum of its per-dimension contributions, and
    /// these are non-negative and grow with the distance between coordinates:
    /// what makes KD-tree pruning exact.
    spec fn obeys_pruning_laws(&self) -> bool;

    /// For a metric that obeys the pruning laws, per-dimension contributions
    /// are non-negative and monotone.
    proof fn lemma_pruning_laws(&self, a: i32, b: i32, c: i32, dim: int)
        ensures
            self.obeys_pruning_laws() ==> 0 <= self.spec_accum(a, b, dim),
            self.obeys_pruning_laws() && (a <= c <= b || b <= c <= a) ==> self.spec_accum(a, c, dim) <= self.spec_accum(
                a,
                b,
                dim,
            ),
    ;

    /// For a metric that obeys the pruning laws, the full distance is the sum
    /// of the per-dimension contributions.
    proof fn lemma_metric_is_sum(&self, query: Seq<i32>, point: Seq<i32>)
        requires
            query.len() == point.len(),
        ensures
            self.obeys_pruning_laws() ==> self.spec_metric(query, point) == seq_sum(
                Seq::new(query.len(), |d: int| self.spec_accum(query[d], point[d], d)),
            ),
    ;

    /// Full distance between the first `size` components of `query` and of
    /// point `b_idx` of `dataset`. A metric may stop summing early once it
    /// exceeds `worst_dist`; without a bound it returns the full distance.
    fn eval_metric<D: KdTreeDataset>(
        &self,
        dataset: &D,
        query: &[i32],
        b_idx: usize,
        size: usize,
        worst_dist: Option<i128>,
    ) -> (r: i128)
        requires
            b_idx < dataset.spec_point_count(),
            size <= query@.len(),
            size <= dataset.spec_point_dim(),
            size <= max_dim(),
            self.spec_accepts_size(size as nat),
        ensures
            worst_dist is None ==> r == self.spec_metric(
                query@.take(size as int),
                point_prefix(dataset, b_idx as int, size as nat),
            ),
    ;

    /// Per-dimension contribution used by KD-tree bounding-box pruning.
    fn accum_dist(&self, a: i32, b: i32, dim: usize) -> (r: i128)
        ensures
            r == self.spec_accum(a, b, dim as int),
            -accum_limit() <= r <= accum_limit(),
    ;
}

/// Manhattan/L1 metric: the sum of absolute coordinate differences.
#[derive(Clone, Copy, Debug, Default)]
pub struct L1;

/// Squared Euclidean metric, stopping early once a positive worst distance is exceeded.
#[derive(Clone, Copy, Debug, Default)]
pub struct L2;

/// Squared Euclidean metric without early stopping.
#[derive(Clone, Copy, Debug, Default)]
pub struct L2Simple;

/// Wrapped SO(2) angular difference over the last component. Angles are
/// binary angles: a coordinate `x` stands for `x * pi / 2^31`, so the whole
/// `i32` range covers `[-pi, pi)` and a full turn is `2^32`.
#[derive(Clone, Copy, Debug, Default)]
pub struct SO2;

/// SO(3) metric implemented as L2-simple over the provided representation.
#[derive(Clone, Copy, Debug, Default)]
pub struct SO3;

/// Absolute difference of two coordinates.
pub open spec fn abs_diff(a: i32, b: i32) -> int {
    if a >= b { a - b } else { b - a }
}

/// Squared difference of two coordinates.
pub open spec fn sq_diff(a: i32, b: i32) -> int {
    (a - b) * (a - b)
}

/// `b - a` wrapped into `[-2^31, 2^31]`, a half turn being `2^31`.
pub open spec fn wrapped_diff(a: i32, b: i32) -> int {
    let r = b - a;
    if r > 0x8000_0000 {
        r - 0x1_0000_0000
    } else if r < -0x8000_0000 {
        r + 0x1_0000_0000
    } else {
        r
    }
}

/// The per-dimension contributions of the metrics: the absolute difference
/// for L1, and the squared difference for L2, L2-simple and SO3.
pub proof fn lemma_metric_contributions(a: i32, b: i32, d: int)
    ensures
        a >= b ==> L1.spec_accum(a, b, d) == a - b,
        a < b ==> L1.spec_accum(a, b, d) == b - a,
        L2.spec_accum(a, b, d) == (a - b) * (a - b),
        L2Simple.spec_accum(a, b, d) == (a - b) * (a - b),
        SO3.spec_accum(a, b, d) == (a - b) * (a - b),
{
}

/// `k` full turns of binary angle.
pub open spec fn turns(k: int) -> int {
    k * 0x1_0000_0000
}

/// `r` is the angle from `a` to `b`: `b - a` up to whole turns, taken in
/// `[-2^31, 2^31]` (at most half a turn either way), and `b - a` itself when
/// that is already within half a turn.
pub open spec fn is_angle_between(r: int, a: i32, b: i32) -> bool {
    &&& -0x8000_0000 <= r <= 0x8000_0000
    &&& exists|k: int| r == b - a + #[trigger] turns(k)
    &&& -0x8000_0000 <= b - a <= 0x8000_0000 ==> r == b - a
}

/// The SO2 contribution of two binary angles is the angle between them:
/// their difference brought within half a turn by adding whole turns.
pub proof fn lemma_so2_angle(a: i32, b: i32, d: int)
    ensures
        is_angle_between(SO2.spec_accum(a, b, d), a, b),
{
    let r = b - a;
    if r > 0x8000_0000 {
        assert(SO2.spec_accum(a, b, d) == b - a + turns(-1));
    } else if r < -0x8000_0000 {
        assert(SO2.spec_accum(a, b, d) == b - a + turns(1));
    } else {
        assert(SO2.spec_accum(a, b, d) == b - a + turns(0));
    }
}

/// The SO2 distance between a query and a point is the angle between their
/// last components.
pub proof fn lemma_so2_metric_angle(query: Seq<i32>, point: Seq<i32>)
    requires
        query.len() >= 1,
        point.len() >= 1,
    ensures
        is_angle_between(SO2.spec_metric(query, point), query.last(), point.last()),
{
    lemma_so2_angle(query.last(), point.last(), 0);
}

/// The largest squared difference of two `i32` values, `(2^32 - 1)^2`.
pub open spec fn max_sq_diff() -> int {
    0xffff_fffe_0000_0001
}

proof fn lemma_sq_diff_bounds(a: i32, b: i32)
    ensures
        0 <= sq_diff(a, b) <= max_sq_diff(),
{
    let d = a - b;
    assert(-0xffff_ffff <= d <= 0xffff_ffff);
    assert(0 <= d * d <= 0xffff_ffff * 0xffff_ffff) by (nonlinear_arith)
        requires
            -0xffff_ffff <= d <= 0xffff_ffff,
    ;
}

proof fn lemma_sq_monotone(a: i32, b: i32, c: i32)
    requires
        a <= c <= b || b <= c <= a,
    ensures
        sq_diff(a, c) <= sq_diff(a, b),
{
    let x = a - c;
    let y = a - b;
    assert(x * x <= y * y) by (nonlinear_arith)
        requires
            (0 <= x <= y) || (y <= x <= 0),
    ;
}

/// Adding one more term to a prefix sum.
pub proof fn lemma_seq_sum_take(s: Seq<int>, k: int)
    requires
        0 <= k < s.len(),
    ensures
        seq_sum(s.take(k + 1)) == seq_sum(s.take(k)) + s[k],
        capped_sum(s.take(k + 1), 0) == capped_sum(s.take(k + 1), 0),
{
    assert(s.take(k + 1).drop_last() =~= s.take(k));
}

/// Once a capped prefix sum has exceeded `w`, longer prefixes keep its value.
pub proof fn lemma_capped_stable(s: Seq<int>, w: int, k: int)
    requires
        0 <= k <= s.len(),
        capped_sum(s.take(k), w) > w,
    ensures
        capped_sum(s, w) == capped_sum(s.take(k), w),
    decreases s.len() - k,
{
    if k < s.len() {
        assert(s.take(k + 1).drop_last() =~= s.take(k));
        lemma_capped_stable(s, w, k + 1);
    } else {
        assert(s.take(k) =~= s);
    }
}

/// While no prefix exceeds `w`, the capped sum is the plain sum.
pub proof fn lemma_capped_below(s: Seq<int>, w: int, k: int)
    requires
        0 <= k < s.len(),
        capped_sum(s.take(k), w) == seq_sum(s.take(k)),
        seq_sum(s.take(k)) <= w,
    ensures
        capped_sum(s.take(k + 1), w) == seq_sum(s.take(k + 1)),
        seq_sum(s.take(k + 1)) == seq_sum(s.take(k)) + s[k],
{
    assert(s.take(k + 1).drop_last() =~= s.take(k));
}

/// Absolute (or, if `squared`, squared) differences between the first `size`
/// components of `query` and of point `idx` of `dataset`.
pub open spec fn diff_terms<D: KdTreeDataset>(query: Seq<i32>, dataset: &D, idx: int, size: nat, squared: bool) -> Seq<int> {
    Seq::new(size, |d: int| if squared {
        sq_diff(query[d], dataset.spec_pt(idx, d))
    } else {
        abs_diff(query[d], dataset.spec_pt(idx, d))
    })
}

/// Shared loop of the summing metrics: `squared` selects squared differences
/// over absolute ones, `check` the bound at which summing stops.
fn sum_diffs<D: KdTreeDataset>(
    dataset: &D,
    query: &[i32],
    b_idx: usize,
    size: usize,
    squared: bool,
    check: Option<i128>,
) -> (r: i128)
    requires
        b_idx < dataset.spec_point_count(),
        size <= query@.len(),
        size <= dataset.spec_point_dim(),
        size <= max_dim(),
        check matches Some(w) ==> w > 0,
    ensures
        r == abort_sum(diff_terms(query@, dataset, b_idx as int, size as nat, squared), check),
{
    let ghost terms = diff_terms(query@, dataset, b_idx as int, size as nat, squared);
    let mut result: i128 = 0;
    let mut dim: usize = 0;
    assert(terms.take(0) =~= Seq::<int>::empty());
    while dim < size
        invariant
            b_idx < dataset.spec_point_count(),
            size <= query@.len(),
            size <= dataset.spec_point_dim(),
            size <= max_dim(),
            check matches Some(w) ==> w > 0,
            terms == diff_terms(query@, dataset, b_idx as int, size as nat, squared),
            0 <= dim <= size,
            result == seq_sum(terms.take(dim as int)),
            0 <= result <= dim * max_sq_diff(),
            check matches Some(w) ==> capped_sum(terms.take(dim as int), w as int) == result && result <= w,
        decreases size - dim,
    {
        let q = query[dim];
        let p = dataset.kdtree_get_pt(b_idx, dim);
        let diff: i64 = q as i64 - p as i64;
        let term: i128 = if squared {
            proof { lemma_sq_diff_bounds(q, p); }
            (diff as i128) * (diff as i128)
        } else {
            if diff < 0 { (-diff) as i128 } else { diff as i128 }
        };
        assert(term == terms[dim as int]);
        assert(0 <= term <= max_sq_diff()) by {
            lemma_sq_diff_bounds(q, p);
        }
        proof {
            lemma_seq_sum_take(terms, dim as int);
        }
        result = result + term;
        match check {
            Some(w) => {
                proof {
                    lemma_capped_below(terms, w as int, dim as int);
                }
                if result > w {
                    proof {
                        lemma_capped_stable(terms, w as int, dim + 1);
                    }
                    return result;
                }
            },
            None => {},
        }
        dim = dim + 1;
    }
    assert(terms.take(size as int) =~= terms);
    result
}

impl DistanceMetric for L1 {
    open spec fn spec_accum(&self, a: i32, b: i32, dim: int) -> int {
        abs_diff(a, b)
    }

    open spec fn spec_metric(&self, query: Seq<i32>, point: Seq<i32>) -> int {
        seq_sum(Seq::new(query.len(), |d: int| self.spec_accum(query[d], point[d], d)))
    }

    open spec fn spec_accepts_size(&self, size: nat) -> bool {
        true
    }

    open spec fn obeys_pruning_laws(&self) -> bool {
        true
    }

    proof fn lemma_pruning_laws(&self, a: i32, b: i32, c: i32, dim: int) {
    }

    proof fn lemma_metric_is_sum(&self, query: Seq<i32>, point: Seq<i32>) {
    }

    fn eval_metric<D: KdTreeDataset>(
        &self,
        dataset: &D,
        query: &[i32],
        b_idx: usize,
        size: usize,
        worst_dist: Option<i128>,
    ) -> (r: i128)
        ensures
            r == abort_sum(
                Seq::new(size as nat, |d: int| self.spec_accum(query@[d], dataset.spec_pt(b_idx as int, d), d)),
                worst_dist,
            ),
    {
        let check = match worst_dist {
            Some(w) => if w > 0 { Some(w) } else { None },
            None => None,
        };
        let r = sum_diffs(dataset, query, b_idx, size, false, check);
        assert(Seq::new(query@.take(size as int).len(), |d: int| self.spec_accum(query@.take(size as int)[d], point_prefix(dataset, b_idx as int, size as nat)[d], d))
            =~= Seq::new(size as nat, |d: int| self.spec_accum(query@[d], dataset.spec_pt(b_idx as int, d), d)));
        assert(Seq::new(size as nat, |d: int| self.spec_accum(query@[d], dataset.spec_pt(b_idx as int, d), d))
            =~= diff_terms(query@, dataset, b_idx as int, size as nat, false));
        r
    }

    fn accum_dist(&self, a: i32, b: i32, dim: usize) -> (r: i128) {
        let diff: i64 = a as i64 - b as i64;
        if diff < 0 { (-diff) as i128 } else { diff as i128 }
    }
}

impl DistanceMetric for L2 {
    open spec fn spec_accum(&self, a: i32, b: i32, dim: int) -> int {
        sq_diff(a, b)
    }

    open spec fn spec_metric(&self, query: Seq<i32>, point: Seq<i32>) -> int {
        seq_sum(Seq::new(query.len(), |d: int| self.spec_accum(query[d], point[d], d)))
    }

    open spec fn spec_accepts_size(&self, size: nat) -> bool {
        true
    }

    open spec fn obeys_pruning_laws(&self) -> bool {
        true
    }

    proof fn lemma_pruning_laws(&self, a: i32, b: i32, c: i32, dim: int) {
        lemma_sq_diff_bounds(a, b);
        if a <= c <= b || b <= c <= a {
            lemma_sq_monotone(a, b, c);
        }
    }

    proof fn lemma_metric_is_sum(&self, query: Seq<i32>, point: Seq<i32>) {
    }

    fn eval_metric<D: KdTreeDataset>(
        &self,
        dataset: &D,
        query: &[i32],
        b_idx: usize,
        size: usize,
        worst_dist: Option<i128>,
    ) -> (r: i128)
        ensures
            r == abort_sum(
                Seq::new(size as nat, |d: int| self.spec_accum(query@[d], dataset.spec_pt(b_idx as int, d), d)),
                worst_dist,
            ),
    {
        let check = match worst_dist {
            Some(w) => if w > 0 { Some(w) } else { None },
            None => None,
        };
        let r = sum_diffs(dataset, query, b_idx, size, true, check);
        assert(Seq::new(query@.take(size as int).len(), |d: int| self.spec_accum(query@.take(size as int)[d], point_prefix(dataset, b_idx as int, size as nat)[d], d))
            =~= Seq::new(size as nat, |d: int| self.spec_accum(query@[d], dataset.spec_pt(b_idx as int, d), d)));
        assert(Seq::new(size as nat, |d: int| self.spec_accum(query@[d], dataset.spec_pt(b_idx as int, d), d))
            =~= diff_terms(query@, dataset, b_idx as int, size as nat, true));
        r
    }

    fn accum_dist(&self, a: i32, b: i32, dim: usize) -> (r: i128) {
        proof { lemma_sq_diff_bounds(a, b); }
        let diff: i64 = a as i64 - b as i64;
        (diff as i128) * (diff as i128)
    }
}

impl DistanceMetric for L2Simple {
    open spec fn spec_accum(&self, a: i32, b: i32, dim: int) -> int {
        sq_diff(a, b)
    }

    open spec fn spec_metric(&self, query: Seq<i32>, point: Seq<i32>) -> int {
        seq_sum(Seq::new(query.len(), |d: int| self.spec_accum(query[d], point[d], d)))
    }

    open spec fn spec_accepts_size(&self, size: nat) -> bool {
        true
    }

    open spec fn obeys_pruning_laws(&self) -> bool {
        true
    }

    proof fn lemma_pruning_laws(&self, a: i32, b: i32, c: i32, dim: int) {
        lemma_sq_diff_bounds(a, b);
        if a <= c <= b || b <= c <= a {
            lemma_sq_monotone(a, b, c);
        }
    }

    proof fn lemma_metric_is_sum(&self, query: Seq<i32>, point: Seq<i32>) {
    }

    fn eval_metric<D: KdTreeDataset>(
        &self,
        dataset: &D,
        query: &[i32],
        b_idx: usize,
        size: usize,
        worst_dist: Option<i128>,
    ) -> (r: i128)
        ensures
            r == seq_sum(Seq::new(size as nat, |d: int| self.spec_accum(query@[d], dataset.spec_pt(b_idx as int, d), d))),
    {
        let r = sum_diffs(dataset, query, b_idx, size, true, None);
        assert(Seq::new(query@.take(size as int).len(), |d: int| self.spec_accum(query@.take(size as int)[d], point_prefix(dataset, b_idx as int, size as nat)[d], d))
            =~= Seq::new(size as nat, |d: int| self.spec_accum(query@[d], dataset.spec_pt(b_idx as int, d), d)));
        assert(Seq::new(size as nat, |d: int| self.spec_accum(query@[d], dataset.spec_pt(b_idx as int, d), d))
            =~= diff_terms(query@, dataset, b_idx as int, size as nat, true));
        r
    }

    fn accum_dist(&self, a: i32, b: i32, dim: usize) -> (r: i128) {
        proof { lemma_sq_diff_bounds(a, b); }
        let diff: i64 = a as i64 - b as i64;
        (diff as i128) * (diff as i128)
    }
}

impl DistanceMetric for SO2 {
    open spec fn spec_accum(&self, a: i32, b: i32, dim: int) -> int {
        wrapped_diff(a, b)
    }

    open spec fn spec_metric(&self, query: Seq<i32>, point: Seq<i32>) -> int {
        wrapped_diff(query.last(), point.last())
    }

    open spec fn spec_accepts_size(&self, size: nat) -> bool {
        size >= 1
    }

    open spec fn obeys_pruning_laws(&self) -> bool {
        false
    }

    proof fn lemma_pruning_laws(&self, a: i32, b: i32, c: i32, dim: int) {
    }

    proof fn lemma_metric_is_sum(&self, query: Seq<i32>, point: Seq<i32>) {
    }

    fn eval_metric<D: KdTreeDataset>(
        &self,
        dataset: &D,
        query: &[i32],
        b_idx: usize,
        size: usize,
        worst_dist: Option<i128>,
    ) -> (r: i128)
        ensures
            r == wrapped_diff(query@[size - 1], dataset.spec_pt(b_idx as int, size - 1)),
            is_angle_between(r as int, query@[size - 1], dataset.spec_pt(b_idx as int, size - 1)),
    {
        let p = dataset.kdtree_get_pt(b_idx, size - 1);
        self.accum_dist(query[size - 1], p, size - 1)
    }

    fn accum_dist(&self, a: i32, b: i32, dim: usize) -> (r: i128)
        ensures
            is_angle_between(r as int, a, b),
    {
        proof {
            lemma_so2_angle(a, b, dim as int);
        }
        let r: i128 = b as i128 - a as i128;
        if r > 0x8000_0000 {
            r - 0x1_0000_0000
        } else if r < -0x8000_0000 {
            r + 0x1_0000_0000
        } else {
            r
        }
    }
}

impl DistanceMetric for SO3 {
    open spec fn spec_accum(&self, a: i32, b: i32, dim: int) -> int {
        sq_diff(a, b)
    }

    open spec fn spec_metric(&self, query: Seq<i32>, point: Seq<i32>) -> int {
        seq_sum(Seq::new(query.len(), |d: int| self.spec_accum(query[d], point[d], d)))
    }

    open spec fn spec_accepts_size(&self, size: nat) -> bool {
        true
    }

    open spec fn obeys_pruning_laws(&self) -> bool {
        true
    }

    proof fn lemma_pruning_laws(&self, a: i32, b: i32, c: i32, dim: int) {
        lemma_sq_diff_bounds(a, b);
        if a <= c <= b || b <= c <= a {
            lemma_sq_monotone(a, b, c);
        }
    }

    proof fn lemma_metric_is_sum(&self, query: Seq<i32>, point: Seq<i32>) {
    }

    fn eval_metric<D: KdTreeDataset>(
        &self,
        dataset: &D,
        query: &[i32],
        b_idx: usize,
        size: usize,
        worst_dist: Option<i128>,
    ) -> (r: i128)
        ensures
            r == seq_sum(Seq::new(size as nat, |d: int| self.spec_accum(query@[d], dataset.spec_pt(b_idx as int, d), d))),
    {
        let r = L2Simple.eval_metric(dataset, query, b_idx, size, worst_dist);
        assert(Seq::new(query@.take(size as int).len(), |d: int| self.spec_accum(query@.take(size as int)[d], point_prefix(dataset, b_idx as int, size as nat)[d], d))
            =~= Seq::new(size as nat, |d: int| self.spec_accum(query@[d], dataset.spec_pt(b_idx as int, d), d)));
        assert(Seq::new(size as nat, |d: int| self.spec_accum(query@[d], dataset.spec_pt(b_idx as int, d), d))
            =~= Seq::new(size as nat, |d: int| L2Simple.spec_accum(query@[d], dataset.spec_pt(b_idx as int, d), d)));
        r
    }

    fn accum_dist(&self, a: i32, b: i32, dim: usize) -> (r: i128) {
        L2Simple.accum_dist(a, b, dim)
    }
}

} // verus!
