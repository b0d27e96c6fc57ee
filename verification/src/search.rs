use vstd::prelude::*;
use vstd::relations::{sorted_by, total_ordering};

use crate::dataset::{point_prefix, KdTreeDataset};
use crate::metric::{accum_limit, max_dim, seq_sum, DistanceMetric};
use crate::result_set::{
    bounded_insert, insertion_pos, lemma_bounded_insert_members, lemma_bounded_insert_ordered,
    lemma_insertion_pos_bounds, lex_le, ordered, shifts, sorted_by_distance, sorted_lex, Collector, ResultItem,
};
use crate::tree::{bbox_contains, dim_contains, node_hi, node_lo, node_wf, readable, Interval, Node};

verus! {

broadcast use vstd::seq_lib::group_to_multiset_ensures;

/// The entries of `s` as integers.
pub open spec fn ints(s: Seq<i128>) -> Seq<int> {
    s.map_values(|x: i128| x as int)
}

/// Distance under `metric` between the first `dim` components of `query` and of point `c`.
pub open spec fn dist_of<D: KdTreeDataset, M: DistanceMetric>(metric: &M, ds: &D, query: Seq<i32>, dim: nat, c: int) -> int {
    metric.spec_metric(query.take(dim as int), point_prefix(ds, c, dim))
}

/// The point indices at the entries `[lo, hi)` of `v`.
pub open spec fn range_set(v: Seq<usize>, lo: int, hi: int) -> Set<int> {
    Set::new(|c: int| exists|k: int| lo <= k < hi && v[k] as int == c)
}

/// Whether point `c` takes part in a search filtered by `active`
/// (`None`: every point; else the points with an entry `Some(_)`).
pub open spec fn is_active(active: Option<Seq<Option<usize>>>, c: int) -> bool {
    match active {
        None => true,
        Some(t) => 0 <= c < t.len() && t[c] is Some,
    }
}

/// The view of a filter.
pub open spec fn filter_view(active: Option<&Vec<Option<usize>>>) -> Option<Seq<Option<usize>>> {
    match active {
        None => None,
        Some(t) => Some(t@),
    }
}

/// Some item holds point `c`.
pub open spec fn holds_index(items: Seq<ResultItem>, c: int) -> bool {
    exists|k: int| 0 <= k < items.len() && items[k].index == c
}

/// A candidate at distance `d` cannot enter `col`, even allowing the
/// approximation factor `e`.
pub open spec fn beyond(col: Collector, d: int, e: int) -> bool {
    (col.bounded && col.capacity == 0) || e * d >= col.worst_spec()
}

/// With `first_match` and the factor `e` exact at distance `d` (`e == 1` or
/// `d == 0`), a point `c` left out of a full bounded collector at the distance
/// of its last item has a larger index than that item.
pub open spec fn loses_tie(col: Collector, d: int, c: int, e: int) -> bool {
    col.bounded && col.first_match && 0 < col.capacity == col.items@.len() && d == col.items@.last().distance && (e == 1
        || d == 0) ==> c > col.items@.last().index
}

/// What a search has established once the points in `handled` are processed:
/// the items are handled, active, distinct points at their true distances, and
/// (for a metric that obeys the pruning laws) every other handled active point
/// is too far to enter the collector, and loses any tie with its last item.
pub open spec fn search_inv<D: KdTreeDataset, M: DistanceMetric>(
    col: Collector,
    handled: Set<int>,
    metric: &M,
    ds: &D,
    q: Seq<i32>,
    dim: nat,
    e: int,
    act: Option<Seq<Option<usize>>>,
) -> bool {
    &&& col.wf()
    &&& forall|k: int|
        0 <= k < col.items@.len() ==> {
            &&& handled.contains((#[trigger] col.items@[k]).index as int)
            &&& col.items@[k].distance == dist_of(metric, ds, q, dim, col.items@[k].index as int)
            &&& is_active(act, col.items@[k].index as int)
        }
    &&& forall|i: int, j: int|
        0 <= i < j < col.items@.len() ==> (#[trigger] col.items@[i]).index != (#[trigger] col.items@[j]).index
    &&& metric.obeys_pruning_laws() ==> forall|c: int|
        handled.contains(c) && is_active(act, c) && !holds_index(col.items@, c) ==> #[trigger] beyond(
            col,
            dist_of(metric, ds, q, dim, c),
            e,
        )
    &&& metric.obeys_pruning_laws() ==> forall|c: int|
        handled.contains(c) && is_active(act, c) && !holds_index(col.items@, c) ==> #[trigger] loses_tie(
            col,
            dist_of(metric, ds, q, dim, c),
            c,
            e,
        )
}

/// Sum after replacing one entry.
pub proof fn lemma_seq_sum_update(s: Seq<int>, i: int, x: int)
    requires
        0 <= i < s.len(),
    ensures
        seq_sum(s.update(i, x)) == seq_sum(s) - s[i] + x,
    decreases s.len(),
{
    if i < s.len() - 1 {
        assert(s.update(i, x).drop_last() =~= s.drop_last().update(i, x));
        lemma_seq_sum_update(s.drop_last(), i, x);
    } else {
        assert(s.update(i, x).drop_last() =~= s.drop_last());
    }
}

/// A sum of entries bounded by `l` in magnitude is bounded by `len * l`.
pub proof fn lemma_seq_sum_bound(s: Seq<int>, l: int)
    requires
        l >= 0,
        forall|i: int| 0 <= i < s.len() ==> -l <= #[trigger] s[i] <= l,
    ensures
        -(s.len() * l) <= seq_sum(s) <= s.len() * l,
    decreases s.len(),
{
    if s.len() > 0 {
        lemma_seq_sum_bound(s.drop_last(), l);
        assert(-l <= s[s.len() - 1] <= l);
        assert((s.len() - 1) * l + l == s.len() * l) by (nonlinear_arith);
    }
}

/// Pointwise smaller sequences have smaller sums.
pub proof fn lemma_seq_sum_le(a: Seq<int>, b: Seq<int>)
    requires
        a.len() == b.len(),
        forall|i: int| 0 <= i < a.len() ==> #[trigger] a[i] <= b[i],
    ensures
        seq_sum(a) <= seq_sum(b),
    decreases a.len(),
{
    if a.len() > 0 {
        lemma_seq_sum_le(a.drop_last(), b.drop_last());
        assert(a[a.len() - 1] <= b[b.len() - 1]);
    }
}

/// A sum of zeros.
pub proof fn lemma_seq_sum_zeros(n: nat)
    ensures
        seq_sum(Seq::new(n, |i: int| 0int)) == 0,
    decreases n,
{
    if n > 0 {
        assert(Seq::new(n, |i: int| 0int).drop_last() =~= Seq::new((n - 1) as nat, |i: int| 0int));
        lemma_seq_sum_zeros((n - 1) as nat);
    }
}

/// For a metric that obeys the pruning laws, per-dimension lower bounds add
/// up to a lower bound of the distance, and distances are non-negative.
pub proof fn lemma_dist_lower_bound<D: KdTreeDataset, M: DistanceMetric>(
    metric: &M,
    ds: &D,
    q: Seq<i32>,
    dim: nat,
    c: int,
    dists: Seq<i128>,
)
    requires
        metric.obeys_pruning_laws(),
        dim <= q.len(),
        dists.len() == dim,
        forall|d: int| 0 <= d < dim ==> #[trigger] dists[d] <= metric.spec_accum(q[d], ds.spec_pt(c, d), d),
    ensures
        seq_sum(ints(dists)) <= dist_of(metric, ds, q, dim, c),
        0 <= dist_of(metric, ds, q, dim, c),
{
    let qq = q.take(dim as int);
    let pp = point_prefix(ds, c, dim);
    metric.lemma_metric_is_sum(qq, pp);
    let terms = Seq::new(qq.len(), |d: int| metric.spec_accum(qq[d], pp[d], d));
    assert forall|d: int| 0 <= d < dim implies #[trigger] ints(dists)[d] <= terms[d] by {
        assert(dists[d] <= metric.spec_accum(q[d], ds.spec_pt(c, d), d));
    }
    lemma_seq_sum_le(ints(dists), terms);
    let zeros = Seq::new(dim, |i: int| 0int);
    assert forall|d: int| 0 <= d < dim implies #[trigger] zeros[d] <= terms[d] by {
        metric.lemma_pruning_laws(qq[d], pp[d], pp[d], d);
    }
    lemma_seq_sum_le(zeros, terms);
    lemma_seq_sum_zeros(dim);
}

/// Whether `idx` passes the filter.
fn active_at(active: Option<&Vec<Option<usize>>>, idx: usize) -> (b: bool)
    ensures
        b == is_active(filter_view(active), idx as int),
{
    match active {
        None => true,
        Some(t) => idx < t.len() && t[idx].is_some(),
    }
}

/// Processing a point that is filtered out or too far keeps the invariant.
proof fn lemma_skip_point<D: KdTreeDataset, M: DistanceMetric>(
    col: Collector,
    handled: Set<int>,
    metric: &M,
    ds: &D,
    q: Seq<i32>,
    dim: nat,
    e: int,
    act: Option<Seq<Option<usize>>>,
    c: int,
)
    requires
        search_inv(col, handled, metric, ds, q, dim, e, act),
        !handled.contains(c),
        e >= 1,
        is_active(act, c) ==> !col.takes(dist_of(metric, ds, q, dim, c), c),
        metric.obeys_pruning_laws() ==> 0 <= dist_of(metric, ds, q, dim, c),
    ensures
        search_inv(col, handled.insert(c), metric, ds, q, dim, e, act),
{
    let h2 = handled.insert(c);
    if metric.obeys_pruning_laws() {
        assert forall|x: int| h2.contains(x) && is_active(act, x) && !holds_index(col.items@, x) implies #[trigger] loses_tie(
            col,
            dist_of(metric, ds, q, dim, x),
            x,
            e,
        ) by {
            if x == c {
                if col.bounded && 0 < col.capacity == col.items@.len() {
                    let l = col.items@.len() - 1;
                    assert(handled.contains(col.items@[l].index as int));
                }
            } else {
                assert(handled.contains(x));
            }
        }
        assert forall|x: int| h2.contains(x) && is_active(act, x) && !holds_index(col.items@, x) implies #[trigger] beyond(
            col,
            dist_of(metric, ds, q, dim, x),
            e,
        ) by {
            if x == c {
                let d = dist_of(metric, ds, q, dim, c);
                assert(e * d >= d) by (nonlinear_arith)
                    requires
                        e >= 1,
                        d >= 0,
                ;
            } else {
                assert(handled.contains(x));
            }
        }
    }
}

/// Offering an active point closer than the worst distance keeps the invariant.
proof fn lemma_offer_point<D: KdTreeDataset, M: DistanceMetric>(
    col: Collector,
    col2: Collector,
    handled: Set<int>,
    metric: &M,
    ds: &D,
    q: Seq<i32>,
    dim: nat,
    e: int,
    act: Option<Seq<Option<usize>>>,
    c: usize,
    dist: i128,
)
    requires
        search_inv(col, handled, metric, ds, q, dim, e, act),
        !handled.contains(c as int),
        e >= 1,
        is_active(act, c as int),
        dist == dist_of(metric, ds, q, dim, c as int),
        col.takes(dist as int, c as int),
        metric.obeys_pruning_laws() ==> 0 <= dist,
        col2.wf(),
        col2.bounded == col.bounded,
        col2.capacity == col.capacity,
        col2.radius == col.radius,
        col2.first_match == col.first_match,
        col2.bounded ==> col2.items@ == bounded_insert(
            col.items@,
            ResultItem { index: c, distance: dist },
            col.capacity as nat,
            col.first_match,
        ),
        !col2.bounded ==> col2.items@ == col.items@.push(ResultItem { index: c, distance: dist }),
    ensures
        search_inv(col2, handled.insert(c as int), metric, ds, q, dim, e, act),
{
    let h2 = handled.insert(c as int);
    let item = ResultItem { index: c, distance: dist };
    let s = col.items@;
    let t = col2.items@;
    assert(!holds_index(s, c as int)) by {
        if holds_index(s, c as int) {
            let k = choose|k: int| 0 <= k < s.len() && s[k].index == c;
            assert(handled.contains(s[k].index as int));
        }
    }
    if col.bounded {
        if s.len() == col.capacity && col.capacity > 0 {
            assert(shifts(s[s.len() - 1], item, col.first_match));
        }
        lemma_bounded_insert_members(s, item, col.capacity as nat, col.first_match);
        lemma_bounded_insert_ordered(s, item, col.capacity as nat, col.first_match);
        // every kept item is an old item or the new one
        assert forall|k: int| 0 <= k < t.len() implies {
            &&& h2.contains((#[trigger] t[k]).index as int)
            &&& t[k].distance == dist_of(metric, ds, q, dim, t[k].index as int)
            &&& is_active(act, t[k].index as int)
        } by {
            if t[k] != item {
                assert(s.contains(t[k]));
                let j = choose|j: int| 0 <= j < s.len() && s[j] == t[k];
                assert(handled.contains(s[j].index as int));
            }
        }
        assert forall|k: int| 0 <= k < s.len() implies (#[trigger] s[k]).index != item.index by {
            assert(handled.contains(s[k].index as int));
        }
        lemma_bounded_insert_distinct(s, item, col.capacity as nat, col.first_match);
        if metric.obeys_pruning_laws() {
            // every kept item is no farther than the old worst
            assert forall|k: int| 0 <= k < t.len() implies (#[trigger] t[k]).distance <= col.worst_spec() by {
                if t[k] != item {
                    let j = choose|j: int| 0 <= j < s.len() && s[j] == t[k];
                    if col.items@.len() >= col.capacity && col.items@.len() > 0 {
                        assert(s[j].distance <= s[s.len() - 1].distance);
                    }
                }
            }
            assert(col2.worst_spec() <= col.worst_spec()) by {
                if t.len() >= col.capacity && t.len() > 0 {
                    assert(t[t.len() - 1].distance <= col.worst_spec());
                }
            }
            assert forall|x: int| h2.contains(x) && is_active(act, x) && !holds_index(t, x) implies #[trigger] beyond(
                col2,
                dist_of(metric, ds, q, dim, x),
                e,
            ) by {
                let dx = dist_of(metric, ds, q, dim, x);
                if col.capacity == 0 {
                } else if x == c {
                    // the new item is always kept
                    lemma_new_item_kept(s, item, col.capacity as nat, col.first_match);
                    assert(t.contains(item));
                    let k = choose|k: int| 0 <= k < t.len() && t[k] == item;
                    assert(holds_index(t, x));
                } else if holds_index(s, x) {
                    // an evicted item was the old last one, no nearer than any kept item
                    let k = choose|k: int| 0 <= k < s.len() && s[k].index == x;
                    assert(!t.contains(s[k])) by {
                        if t.contains(s[k]) {
                            let kk = choose|kk: int| 0 <= kk < t.len() && t[kk] == s[k];
                            assert(holds_index(t, x));
                        }
                    }
                    assert(k == s.len() - 1);
                    assert(dx == s[k].distance);
                    assert(dx >= 0);
                    assert forall|kk: int| 0 <= kk < t.len() implies (#[trigger] t[kk]).distance <= dx by {
                        if t[kk] != item {
                            let j = choose|j: int| 0 <= j < s.len() && s[j] == t[kk];
                            assert(s[j].distance <= s[k].distance);
                        }
                    }
                    if t.len() >= col.capacity && t.len() > 0 {
                        assert(t[t.len() - 1].distance <= dx);
                    } else {
                        assert(col2.worst_spec() == col.radius);
                        lemma_new_item_kept(s, item, col.capacity as nat, col.first_match);
                        assert(false);
                    }
                    assert(e * dx >= dx) by (nonlinear_arith)
                        requires
                            e >= 1,
                            dx >= 0,
                    ;
                } else {
                    assert(handled.contains(x));
                    assert(beyond(col, dx, e));
                }
            }
            if col.first_match && s.len() == col.capacity && col.capacity > 0 {
                assert forall|a: int, b: int| 0 <= a < b < s.len() implies (#[trigger] s[a]).index != (#[trigger] s[b]).index by {}
                lemma_last_moves_up(s, item, col.capacity as nat);
            }
            assert forall|x: int| h2.contains(x) && is_active(act, x) && !holds_index(t, x) implies #[trigger] loses_tie(
                col2,
                dist_of(metric, ds, q, dim, x),
                x,
                e,
            ) by {
                let dx = dist_of(metric, ds, q, dim, x);
                if col.first_match && 0 < col.capacity == t.len() && dx == t[t.len() - 1].distance && (e == 1 || dx == 0) {
                    if dx == 0 {
                        assert(e * dx == 0) by (nonlinear_arith)
                            requires
                                dx == 0,
                        ;
                    }
                    assert(t[t.len() - 1].distance < col.radius);
                    if x == c {
                        lemma_new_item_kept(s, item, col.capacity as nat, col.first_match);
                        let k = choose|k: int| 0 <= k < t.len() && t[k] == item;
                        assert(holds_index(t, x));
                    } else if holds_index(s, x) {
                        let k = choose|k: int| 0 <= k < s.len() && s[k].index == x;
                        assert(!t.contains(s[k])) by {
                            if t.contains(s[k]) {
                                let kk = choose|kk: int| 0 <= kk < t.len() && t[kk] == s[k];
                                assert(holds_index(t, x));
                            }
                        }
                        assert(k == s.len() - 1);
                    } else {
                        assert(handled.contains(x));
                        assert(beyond(col, dx, e));
                        assert(loses_tie(col, dx, x, e));
                    }
                }
            }
        }
    } else {
        assert forall|k: int| 0 <= k < t.len() implies {
            &&& h2.contains((#[trigger] t[k]).index as int)
            &&& t[k].distance == dist_of(metric, ds, q, dim, t[k].index as int)
            &&& is_active(act, t[k].index as int)
        } by {
            if k < s.len() {
                assert(t[k] == s[k]);
            }
        }
        assert forall|i: int, j: int| 0 <= i < j < t.len() implies (#[trigger] t[i]).index != (#[trigger] t[j]).index by {
            if j == s.len() {
                assert(t[i] == s[i]);
                assert(handled.contains(s[i].index as int));
            } else {
                assert(t[i] == s[i] && t[j] == s[j]);
            }
        }
        if metric.obeys_pruning_laws() {
            assert forall|x: int| h2.contains(x) && is_active(act, x) && !holds_index(t, x) implies #[trigger] beyond(
                col2,
                dist_of(metric, ds, q, dim, x),
                e,
            ) by {
                if x == c {
                    assert(t[s.len() as int] == item);
                    assert(holds_index(t, x));
                } else {
                    if holds_index(s, x) {
                        let k = choose|k: int| 0 <= k < s.len() && s[k].index == x;
                        assert(t[k] == s[k]);
                        assert(holds_index(t, x));
                    }
                    assert(handled.contains(x));
                    assert(beyond(col, dist_of(metric, ds, q, dim, x), e));
                    assert(col2.worst_spec() == col.worst_spec());
                }
            }
            assert forall|x: int| h2.contains(x) && is_active(act, x) && !holds_index(t, x) implies #[trigger] loses_tie(
                col2,
                dist_of(metric, ds, q, dim, x),
                x,
                e,
            ) by {}
        }
    }
}

/// Once a full collector keeps a new item, with `first_match`, its last item
/// comes before the old last one, by distance then index.
proof fn lemma_last_moves_up(s: Seq<ResultItem>, item: ResultItem, capacity: nat)
    requires
        capacity > 0,
        s.len() == capacity,
        shifts(s[s.len() - 1], item, true),
        sorted_lex(s),
        forall|a: int, b: int| 0 <= a < b < s.len() ==> (#[trigger] s[a]).index != (#[trigger] s[b]).index,
    ensures
        bounded_insert(s, item, capacity, true).len() == capacity,
        ({
            let t = bounded_insert(s, item, capacity, true);
            let l = t[t.len() - 1];
            let o = s[s.len() - 1];
            l.distance < o.distance || (l.distance == o.distance && l.index < o.index)
        }),
{
    lemma_insertion_pos_bounds(s, item, true);
    let p = insertion_pos(s, item, true);
    assert(p < s.len());
    s.insert_ensures(p, item);
    let t = s.insert(p, item);
    if p == s.len() - 1 {
        assert(t.drop_last()[p] == item);
    } else {
        assert(t.drop_last()[s.len() - 1] == s[s.len() - 2]);
        assert(lex_le(s[s.len() - 2], s[s.len() - 1]));
    }
}

/// A new item nearer than a full collector's last item, or offered to a
/// collector with room, is kept.
proof fn lemma_new_item_kept(s: Seq<ResultItem>, item: ResultItem, capacity: nat, first_match: bool)
    requires
        capacity > 0,
        s.len() <= capacity,
        s.len() == capacity ==> shifts(s[s.len() - 1], item, first_match),
    ensures
        bounded_insert(s, item, capacity, first_match).contains(item),
{
    lemma_insertion_pos_bounds(s, item, first_match);
    let p = insertion_pos(s, item, first_match);
    if s.len() == capacity {
        assert(p < s.len());
    }
    let t = s.insert(p, item);
    s.insert_ensures(p, item);
    assert(t[p] == item);
    if t.len() > capacity {
        assert(t.drop_last()[p] == item);
    }
}

/// A bounded insertion of an item with a new index keeps indices distinct.
proof fn lemma_bounded_insert_distinct(s: Seq<ResultItem>, item: ResultItem, capacity: nat, first_match: bool)
    requires
        forall|a: int, b: int| 0 <= a < b < s.len() ==> (#[trigger] s[a]).index != (#[trigger] s[b]).index,
        forall|k: int| 0 <= k < s.len() ==> (#[trigger] s[k]).index != item.index,
    ensures
        forall|i: int, j: int|
            0 <= i < j < bounded_insert(s, item, capacity, first_match).len() ==> (#[trigger] bounded_insert(
                s,
                item,
                capacity,
                first_match,
            )[i]).index != (#[trigger] bounded_insert(s, item, capacity, first_match)[j]).index,
{
    lemma_insertion_pos_bounds(s, item, first_match);
    let p = insertion_pos(s, item, first_match);
    let t = bounded_insert(s, item, capacity, first_match);
    if capacity > 0 && p < capacity {
        s.insert_ensures(p, item);
        assert forall|i: int, j: int| 0 <= i < j < t.len() implies (#[trigger] t[i]).index != (#[trigger] t[j]).index by {
            if i == p {
                assert(t[j] == s[j - 1]);
            } else if j == p {
                assert(t[i] == s[i]);
            } else {
                let oi = if i < p { i } else { i - 1 };
                let oj = if j < p { j } else { j - 1 };
                assert(t[i] == s[oi]);
                assert(t[j] == s[oj]);
                assert(oi < oj);
            }
        }
    }
}

/// The lower bounds `dists` hold for the points at the entries `[lo, hi)` of `v`.
pub open spec fn bounds_valid<D: KdTreeDataset, M: DistanceMetric>(
    metric: &M,
    ds: &D,
    q: Seq<i32>,
    v: Seq<usize>,
    dists: Seq<i128>,
    lo: int,
    hi: int,
    dim: nat,
) -> bool {
    forall|k: int, d: int|
        lo <= k < hi && 0 <= d < dim ==> dists[d] <= #[trigger] metric.spec_accum(q[d], ds.spec_pt(v[k] as int, d), d)
}

/// The points of two adjacent ranges are the points of their union.
pub proof fn lemma_range_set_split(v: Seq<usize>, lo: int, mid: int, hi: int)
    requires
        lo <= mid <= hi,
    ensures
        range_set(v, lo, hi) == range_set(v, lo, mid).union(range_set(v, mid, hi)),
{
    assert(range_set(v, lo, hi) =~= range_set(v, lo, mid).union(range_set(v, mid, hi)));
}

/// Extending a range by one entry adds its point.
pub proof fn lemma_range_set_extend(v: Seq<usize>, lo: int, hi: int)
    requires
        lo <= hi < v.len(),
    ensures
        range_set(v, lo, hi + 1) == range_set(v, lo, hi).insert(v[hi] as int),
{
    assert(range_set(v, lo, hi + 1) =~= range_set(v, lo, hi).insert(v[hi] as int));
}

/// Without repeated entries, disjoint ranges hold disjoint points.
pub proof fn lemma_range_set_disjoint(v: Seq<usize>, lo1: int, hi1: int, lo2: int, hi2: int, c: int)
    requires
        v.no_duplicates(),
        0 <= lo1,
        0 <= lo2,
        hi1 <= lo2 || hi2 <= lo1,
        hi1 <= v.len(),
        hi2 <= v.len(),
        range_set(v, lo1, hi1).contains(c),
    ensures
        !range_set(v, lo2, hi2).contains(c),
{
    let k1 = choose|k: int| lo1 <= k < hi1 && v[k] as int == c;
    if range_set(v, lo2, hi2).contains(c) {
        let k2 = choose|k: int| lo2 <= k < hi2 && v[k] as int == c;
        assert(k1 != k2);
        assert(v[k1] == v[k2]);
    }
}

/// Skipping a subtree whose lower bound, scaled by `e`, exceeds the worst
/// distance keeps the invariant.
proof fn lemma_prune<D: KdTreeDataset, M: DistanceMetric>(
    col: Collector,
    handled: Set<int>,
    skipped: Set<int>,
    metric: &M,
    ds: &D,
    q: Seq<i32>,
    dim: nat,
    e: int,
    act: Option<Seq<Option<usize>>>,
)
    requires
        search_inv(col, handled, metric, ds, q, dim, e, act),
        forall|c: int| #[trigger] skipped.contains(c) ==> !handled.contains(c),
        metric.obeys_pruning_laws() ==> forall|c: int| #[trigger] skipped.contains(c) ==> e * dist_of(metric, ds, q, dim, c) > col.worst_spec(),
    ensures
        search_inv(col, handled.union(skipped), metric, ds, q, dim, e, act),
{
    let h2 = handled.union(skipped);
    if metric.obeys_pruning_laws() {
        assert forall|c: int| h2.contains(c) && is_active(act, c) && !holds_index(col.items@, c) implies #[trigger] beyond(
            col,
            dist_of(metric, ds, q, dim, c),
            e,
        ) by {
            if skipped.contains(c) {
            } else {
                assert(handled.contains(c));
            }
        }
        assert forall|c: int| h2.contains(c) && is_active(act, c) && !holds_index(col.items@, c) implies #[trigger] loses_tie(
            col,
            dist_of(metric, ds, q, dim, c),
            c,
            e,
        ) by {
            if skipped.contains(c) {
                let d = dist_of(metric, ds, q, dim, c);
                if d == 0 {
                    assert(e * d == 0) by (nonlinear_arith)
                        requires
                            d == 0,
                    ;
                }
            } else {
                assert(handled.contains(c));
            }
        }
    }
}

/// A point at distance `d` does not enter `col`: `col` keeps nothing, or `d`
/// is no nearer than its worst distance.
pub open spec fn exceeds(col: Collector, d: int) -> bool {
    (col.bounded && col.capacity == 0) || d >= col.worst_spec()
}

/// Every point of `seen` that passes the filter and is not held does not
/// enter `col`, whatever the metric: these are the points the search
/// evaluated.
pub open spec fn seen_inv<D: KdTreeDataset, M: DistanceMetric>(
    col: Collector,
    seen: Set<int>,
    metric: &M,
    ds: &D,
    q: Seq<i32>,
    dim: nat,
    act: Option<Seq<Option<usize>>>,
) -> bool {
    forall|c: int|
        seen.contains(c) && is_active(act, c) && !holds_index(col.items@, c) ==> #[trigger] exceeds(
            col,
            dist_of(metric, ds, q, dim, c),
        )
}

/// The leaf that the query falls into: from `n`, down the child on the
/// query's side of each split.
pub open spec fn home_leaf(n: Node, q: Seq<i32>) -> Node
    decreases n,
{
    match n {
        Node::Leaf { .. } => n,
        Node::Split { divfeat, divlow, divhigh, child1, child2 } => {
            if (q[divfeat as int] - divlow) + (q[divfeat as int] - divhigh) < 0 {
                home_leaf(*child1, q)
            } else {
                home_leaf(*child2, q)
            }
        },
    }
}

/// The points of the leaf that the query falls into.
pub open spec fn home_points(n: Node, v: Seq<usize>, q: Seq<i32>) -> Set<int> {
    range_set(v, node_lo(home_leaf(n, q)), node_hi(home_leaf(n, q)))
}

/// Every point of `pts` that `items` leaves out is too far for a
/// nearest-neighbor answer: at least `radius` away when fewer than `k` items
/// were found, and no nearer than the last item when `k` were.
pub open spec fn knn_covers<D: KdTreeDataset, M: DistanceMetric>(
    items: Seq<ResultItem>,
    pts: Set<int>,
    metric: &M,
    ds: &D,
    q: Seq<i32>,
    dim: nat,
    k: nat,
    radius: int,
) -> bool {
    forall|c: int|
        #[trigger] pts.contains(c) && !holds_index(items, c) ==> {
            &&& items.len() < k ==> dist_of(metric, ds, q, dim, c) >= radius
            &&& 0 < k == items.len() ==> dist_of(metric, ds, q, dim, c) >= items.last().distance
        }
}

/// Every point of `pts` that `items` leaves out is at least `radius` away.
pub open spec fn radius_covers<D: KdTreeDataset, M: DistanceMetric>(
    items: Seq<ResultItem>,
    pts: Set<int>,
    metric: &M,
    ds: &D,
    q: Seq<i32>,
    dim: nat,
    radius: int,
) -> bool {
    forall|c: int| #[trigger] pts.contains(c) && !holds_index(items, c) ==> dist_of(metric, ds, q, dim, c) >= radius
}

/// A bounded collector covers its evaluated points as a nearest-neighbor answer.
pub proof fn lemma_knn_covers<D: KdTreeDataset, M: DistanceMetric>(
    col: Collector,
    seen: Set<int>,
    metric: &M,
    ds: &D,
    q: Seq<i32>,
    dim: nat,
)
    requires
        col.wf(),
        col.bounded,
        seen_inv(col, seen, metric, ds, q, dim, None),
    ensures
        knn_covers(col.items@, seen, metric, ds, q, dim, col.capacity as nat, col.radius as int),
{
    assert forall|c: int| #[trigger] seen.contains(c) && !holds_index(col.items@, c) implies {
        &&& col.items@.len() < col.capacity ==> dist_of(metric, ds, q, dim, c) >= col.radius
        &&& 0 < col.capacity == col.items@.len() ==> dist_of(metric, ds, q, dim, c) >= col.items@.last().distance
    } by {
        assert(is_active(None, c));
        assert(exceeds(col, dist_of(metric, ds, q, dim, c)));
    }
}

/// An unbounded collector covers its evaluated points as a radius answer.
pub proof fn lemma_radius_covers<D: KdTreeDataset, M: DistanceMetric>(
    col: Collector,
    seen: Set<int>,
    metric: &M,
    ds: &D,
    q: Seq<i32>,
    dim: nat,
)
    requires
        !col.bounded,
        seen_inv(col, seen, metric, ds, q, dim, None),
    ensures
        radius_covers(col.items@, seen, metric, ds, q, dim, col.radius as int),
{
    assert forall|c: int| #[trigger] seen.contains(c) && !holds_index(col.items@, c) implies dist_of(metric, ds, q, dim, c)
        >= col.radius by {
        assert(is_active(None, c));
        assert(exceeds(col, dist_of(metric, ds, q, dim, c)));
    }
}

/// Fewer evaluated points keep the evaluated-points invariant.
proof fn lemma_seen_subset<D: KdTreeDataset, M: DistanceMetric>(
    col: Collector,
    seen: Set<int>,
    fewer: Set<int>,
    metric: &M,
    ds: &D,
    q: Seq<i32>,
    dim: nat,
    act: Option<Seq<Option<usize>>>,
)
    requires
        seen_inv(col, seen, metric, ds, q, dim, act),
        fewer.subset_of(seen),
    ensures
        seen_inv(col, fewer, metric, ds, q, dim, act),
{
    assert forall|c: int| fewer.contains(c) && is_active(act, c) && !holds_index(col.items@, c) implies #[trigger] exceeds(
        col,
        dist_of(metric, ds, q, dim, c),
    ) by {
        assert(seen.contains(c));
    }
}

/// Evaluating a point that the collector does not take keeps the
/// evaluated-points invariant with the point added.
proof fn lemma_seen_skip<D: KdTreeDataset, M: DistanceMetric>(
    col: Collector,
    seen: Set<int>,
    metric: &M,
    ds: &D,
    q: Seq<i32>,
    dim: nat,
    act: Option<Seq<Option<usize>>>,
    c: int,
)
    requires
        seen_inv(col, seen, metric, ds, q, dim, act),
        is_active(act, c) ==> !col.takes(dist_of(metric, ds, q, dim, c), c),
    ensures
        seen_inv(col, seen.insert(c), metric, ds, q, dim, act),
{
    assert forall|x: int| seen.insert(c).contains(x) && is_active(act, x) && !holds_index(col.items@, x) implies #[trigger] exceeds(
        col,
        dist_of(metric, ds, q, dim, x),
    ) by {
        if x != c {
            assert(seen.contains(x));
        }
    }
}

/// Offering a point that the collector takes keeps the evaluated-points
/// invariant with the point added, whatever the metric.
proof fn lemma_seen_offer<D: KdTreeDataset, M: DistanceMetric>(
    col: Collector,
    col2: Collector,
    seen: Set<int>,
    handled: Set<int>,
    metric: &M,
    ds: &D,
    q: Seq<i32>,
    dim: nat,
    e: int,
    act: Option<Seq<Option<usize>>>,
    c: usize,
    dist: i128,
)
    requires
        seen_inv(col, seen, metric, ds, q, dim, act),
        search_inv(col, handled, metric, ds, q, dim, e, act),
        dist == dist_of(metric, ds, q, dim, c as int),
        col.takes(dist as int, c as int),
        col2.wf(),
        col2.bounded == col.bounded,
        col2.capacity == col.capacity,
        col2.radius == col.radius,
        col2.first_match == col.first_match,
        col2.bounded ==> col2.items@ == bounded_insert(
            col.items@,
            ResultItem { index: c, distance: dist },
            col.capacity as nat,
            col.first_match,
        ),
        !col2.bounded ==> col2.items@ == col.items@.push(ResultItem { index: c, distance: dist }),
    ensures
        seen_inv(col2, seen.insert(c as int), metric, ds, q, dim, act),
{
    let item = ResultItem { index: c, distance: dist };
    let s = col.items@;
    let t = col2.items@;
    let s2 = seen.insert(c as int);
    if col.bounded {
        if col.capacity == 0 {
            return;
        }
        if s.len() == col.capacity {
            assert(shifts(s[s.len() - 1], item, col.first_match));
        }
        lemma_bounded_insert_members(s, item, col.capacity as nat, col.first_match);
        lemma_new_item_kept(s, item, col.capacity as nat, col.first_match);
        assert(t.contains(item));
        // every kept item is no farther than the old worst
        assert forall|k: int| 0 <= k < t.len() implies (#[trigger] t[k]).distance <= col.worst_spec() by {
            if t[k] != item {
                let j = choose|j: int| 0 <= j < s.len() && s[j] == t[k];
                if s.len() >= col.capacity && s.len() > 0 {
                    assert(s[j].distance <= s[s.len() - 1].distance);
                }
            }
        }
        assert(col2.worst_spec() <= col.worst_spec()) by {
            if t.len() >= col.capacity && t.len() > 0 {
                assert(t[t.len() - 1].distance <= col.worst_spec());
            }
        }
        assert forall|x: int| s2.contains(x) && is_active(act, x) && !holds_index(t, x) implies #[trigger] exceeds(
            col2,
            dist_of(metric, ds, q, dim, x),
        ) by {
            let dx = dist_of(metric, ds, q, dim, x);
            if x == c {
                let k = choose|k: int| 0 <= k < t.len() && t[k] == item;
                assert(holds_index(t, x));
            } else if holds_index(s, x) {
                // the item left out was the old last one, no nearer than any kept one
                let k = choose|k: int| 0 <= k < s.len() && s[k].index == x;
                assert(!t.contains(s[k])) by {
                    if t.contains(s[k]) {
                        let kk = choose|kk: int| 0 <= kk < t.len() && t[kk] == s[k];
                        assert(holds_index(t, x));
                    }
                }
                assert(k == s.len() - 1);
                assert(dx == s[k].distance);
                assert forall|kk: int| 0 <= kk < t.len() implies (#[trigger] t[kk]).distance <= dx by {
                    if t[kk] != item {
                        let j = choose|j: int| 0 <= j < s.len() && s[j] == t[kk];
                        assert(s[j].distance <= s[k].distance);
                    }
                }
                assert(t.len() == col.capacity);
                assert(t[t.len() - 1].distance <= dx);
            } else {
                assert(seen.contains(x));
                assert(exceeds(col, dx));
            }
        }
    } else {
        assert forall|x: int| s2.contains(x) && is_active(act, x) && !holds_index(t, x) implies #[trigger] exceeds(
            col2,
            dist_of(metric, ds, q, dim, x),
        ) by {
            if x == c {
                assert(t[s.len() as int] == item);
                assert(holds_index(t, x));
            } else {
                if holds_index(s, x) {
                    let k = choose|k: int| 0 <= k < s.len() && s[k].index == x;
                    assert(t[k] == s[k]);
                    assert(holds_index(t, x));
                }
                assert(seen.contains(x));
                assert(exceeds(col, dist_of(metric, ds, q, dim, x)));
            }
        }
    }
}

/// Sorting the items keeps the evaluated-points invariant.
pub proof fn lemma_seen_sort<D: KdTreeDataset, M: DistanceMetric>(
    col: Collector,
    col2: Collector,
    seen: Set<int>,
    metric: &M,
    ds: &D,
    q: Seq<i32>,
    dim: nat,
    act: Option<Seq<Option<usize>>>,
)
    requires
        seen_inv(col, seen, metric, ds, q, dim, act),
        col2.bounded == col.bounded,
        col2.capacity == col.capacity,
        col2.radius == col.radius,
        col2.items@.to_multiset() == col.items@.to_multiset(),
        col2.bounded ==> col2.items@ == col.items@,
    ensures
        seen_inv(col2, seen, metric, ds, q, dim, act),
{
    let s = col.items@;
    let t = col2.items@;
    assert forall|x: int| seen.contains(x) && is_active(act, x) && !holds_index(t, x) implies #[trigger] exceeds(
        col2,
        dist_of(metric, ds, q, dim, x),
    ) by {
        if holds_index(s, x) {
            let k = choose|k: int| 0 <= k < s.len() && s[k].index == x;
            assert(s.contains(s[k]));
            assert(s.to_multiset().count(s[k]) > 0);
            assert(t.contains(s[k]));
            let kk = choose|kk: int| 0 <= kk < t.len() && t[kk] == s[k];
            assert(holds_index(t, x));
        }
        assert(exceeds(col, dist_of(metric, ds, q, dim, x)));
    }
}

/// Visits the subtree `node`: evaluates the active points of a leaf that are
/// nearer than the worst distance, and descends a split node into the child on
/// the query's side first, then into the other child unless its lower bound,
/// scaled by `eps_error`, exceeds the worst distance.
pub fn search_level<D: KdTreeDataset, M: DistanceMetric>(
    dataset: &D,
    metric: &M,
    v: &Vec<usize>,
    dim: usize,
    result: &mut Collector,
    query: &[i32],
    node: &Node,
    mindist: i128,
    dists: &mut Vec<i128>,
    eps_error: i128,
    active: Option<&Vec<Option<usize>>>,
    Ghost(handled): Ghost<Set<int>>,
    Ghost(seen): Ghost<Set<int>>,
)
    requires
        node_wf(*node, v@, dataset, dim as nat),
        readable(dataset, v@, dim as nat),
        v@.no_duplicates(),
        1 <= dim <= max_dim(),
        dim <= query@.len(),
        metric.spec_accepts_size(dim as nat),
        old(dists)@.len() == dim,
        forall|d: int| 0 <= d < dim ==> -accum_limit() <= #[trigger] old(dists)@[d] <= accum_limit(),
        mindist == seq_sum(ints(old(dists)@)),
        eps_error >= 1,
        metric.obeys_pruning_laws() ==> bounds_valid(
            metric,
            dataset,
            query@,
            v@,
            old(dists)@,
            node_lo(*node),
            node_hi(*node),
            dim as nat,
        ),
        search_inv(*old(result), handled, metric, dataset, query@, dim as nat, eps_error as int, filter_view(active)),
        forall|c: int| #[trigger] range_set(v@, node_lo(*node), node_hi(*node)).contains(c) ==> !handled.contains(c),
        seen_inv(*old(result), seen, metric, dataset, query@, dim as nat, filter_view(active)),
    ensures
        final(dists)@ == old(dists)@,
        final(result).bounded == old(result).bounded,
        final(result).capacity == old(result).capacity,
        final(result).radius == old(result).radius,
        final(result).first_match == old(result).first_match,
        search_inv(
            *final(result),
            handled.union(range_set(v@, node_lo(*node), node_hi(*node))),
            metric,
            dataset,
            query@,
            dim as nat,
            eps_error as int,
            filter_view(active),
        ),
        seen_inv(
            *final(result),
            seen.union(home_points(*node, v@, query@)),
            metric,
            dataset,
            query@,
            dim as nat,
            filter_view(active),
        ),
    decreases node,
{
    let ghost q = query@;
    let ghost act = filter_view(active);
    let ghost e = eps_error as int;
    proof {
        crate::tree::lemma_node_range(*node, v@, dataset, dim as nat);
    }
    match node {
        Node::Leaf { left, right } => {
            let left = *left;
            let right = *right;
            let mut offset = left;
            let ghost r0 = *result;
            assert(range_set(v@, left as int, left as int) =~= Set::<int>::empty());
            assert(handled.union(Set::<int>::empty()) =~= handled);
            while offset < right
                invariant
                    result.bounded == r0.bounded,
                    result.capacity == r0.capacity,
                    result.radius == r0.radius,
                    result.first_match == r0.first_match,
                    left <= offset <= right <= v@.len(),
                    node_lo(*node) == left,
                    node_hi(*node) == right,
                    readable(dataset, v@, dim as nat),
                    v@.no_duplicates(),
                    1 <= dim <= max_dim(),
                    dim <= query@.len(),
                    q == query@,
                    act == filter_view(active),
                    e == eps_error,
                    metric.spec_accepts_size(dim as nat),
                    dists@.len() == dim,
                    eps_error >= 1,
                    metric.obeys_pruning_laws() ==> bounds_valid(
                        metric,
                        dataset,
                        query@,
                        v@,
                        dists@,
                        node_lo(*node),
                        node_hi(*node),
                        dim as nat,
                    ),
                    search_inv(
                        *result,
                        handled.union(range_set(v@, left as int, offset as int)),
                        metric,
                        dataset,
                        q,
                        dim as nat,
                        e,
                        act,
                    ),
                    forall|c: int| #[trigger] range_set(v@, node_lo(*node), node_hi(*node)).contains(c) ==> !handled.contains(c),
                    seen_inv(*result, seen.union(range_set(v@, left as int, offset as int)), metric, dataset, q, dim as nat, act),
                decreases right - offset,
            {
                let idx = v[offset];
                let ghost h = handled.union(range_set(v@, left as int, offset as int));
                let ghost sn = seen.union(range_set(v@, left as int, offset as int));
                proof {
                    assert(seen.union(range_set(v@, left as int, offset + 1)) =~= sn.insert(idx as int)) by {
                        lemma_range_set_extend(v@, left as int, offset as int);
                    }
                    lemma_range_set_extend(v@, left as int, offset as int);
                    assert(range_set(v@, left as int, right as int).contains(idx as int));
                    if range_set(v@, left as int, offset as int).contains(idx as int) {
                        let k = choose|k: int| left <= k < offset && v@[k] as int == idx as int;
                        assert(v@[k] == v@[offset as int]);
                    }
                    assert(!h.contains(idx as int));
                    assert(handled.union(range_set(v@, left as int, offset + 1)) =~= h.insert(idx as int));
                    assert(idx < dataset.spec_point_count());
                    if metric.obeys_pruning_laws() {
                        assert forall|d: int| 0 <= d < dim implies #[trigger] dists@[d] <= metric.spec_accum(
                            q[d],
                            dataset.spec_pt(idx as int, d),
                            d,
                        ) by {
                            assert(dists@[d] <= metric.spec_accum(q[d], dataset.spec_pt(v@[offset as int] as int, d), d));
                        }
                        lemma_dist_lower_bound(metric, dataset, q, dim as nat, idx as int, dists@);
                    }
                }
                if active_at(active, idx) {
                    let dist = metric.eval_metric(dataset, query, idx, dim, None);
                    if result.accepts(dist, idx) {
                        let ghost before = *result;
                        result.add_point(dist, idx);
                        proof {
                            lemma_offer_point(before, *result, h, metric, dataset, q, dim as nat, e, act, idx, dist);
                            lemma_seen_offer(before, *result, sn, h, metric, dataset, q, dim as nat, e, act, idx, dist);
                        }
                    } else {
                        proof {
                            lemma_skip_point(*result, h, metric, dataset, q, dim as nat, e, act, idx as int);
                            lemma_seen_skip(*result, sn, metric, dataset, q, dim as nat, act, idx as int);
                        }
                    }
                } else {
                    proof {
                        lemma_skip_point(*result, h, metric, dataset, q, dim as nat, e, act, idx as int);
                        lemma_seen_skip(*result, sn, metric, dataset, q, dim as nat, act, idx as int);
                    }
                }
                offset = offset + 1;
            }
        },
        Node::Split { divfeat, divlow, divhigh, child1, child2 } => {
            let idx = *divfeat;
            let value = query[idx];
            let dl = *divlow;
            let dh = *divhigh;
            let c1: &Node = &**child1;
            let c2: &Node = &**child2;
            proof {
                crate::tree::lemma_node_range(*c1, v@, dataset, dim as nat);
                crate::tree::lemma_node_range(*c2, v@, dataset, dim as nat);
                lemma_range_set_split(v@, node_lo(*c1), node_hi(*c1), node_hi(*c2));
            }
            let side: i64 = (value as i64 - dl as i64) + (value as i64 - dh as i64);
            let first_is_child1 = side < 0;
            let (best, other) = if first_is_child1 { (c1, c2) } else { (c2, c1) };
            let cut_dist = if first_is_child1 {
                metric.accum_dist(value, dh, idx)
            } else {
                metric.accum_dist(value, dl, idx)
            };
            let ghost best_set = range_set(v@, node_lo(*best), node_hi(*best));
            let ghost other_set = range_set(v@, node_lo(*other), node_hi(*other));
            proof {
                assert forall|c: int| #[trigger] best_set.contains(c) implies !handled.contains(c) by {
                    assert(range_set(v@, node_lo(*node), node_hi(*node)).contains(c));
                }
            }
            search_level(dataset, metric, v, dim, result, query, best, mindist, dists, eps_error, active, Ghost(handled), Ghost(seen));
            let ghost seen1 = seen.union(home_points(*best, v@, query@));
            proof {
                assert(home_points(*node, v@, query@) == home_points(*best, v@, query@));
            }
            let ghost h1 = handled.union(best_set);
            let old_dist = dists[idx];
            let ghost d0 = dists@;
            proof {
                lemma_seq_sum_update(ints(d0), idx as int, 0);
                assert(ints(d0).update(idx as int, 0) =~= ints(d0.update(idx as int, 0i128)));
                lemma_seq_sum_bound(ints(d0.update(idx as int, 0i128)), accum_limit());
                assert(dim * accum_limit() <= max_dim() * accum_limit()) by (nonlinear_arith)
                    requires
                        dim <= max_dim(),
                ;
            }
            let mindist2 = (mindist - old_dist) + cut_dist;
            dists[idx] = cut_dist;
            proof {
                lemma_seq_sum_update(ints(d0), idx as int, cut_dist as int);
                assert(ints(dists@) =~= ints(d0).update(idx as int, cut_dist as int));
                assert forall|c: int| #[trigger] other_set.contains(c) implies !h1.contains(c) by {
                    assert(range_set(v@, node_lo(*node), node_hi(*node)).contains(c));
                    lemma_range_set_disjoint(v@, node_lo(*other), node_hi(*other), node_lo(*best), node_hi(*best), c);
                }
                if metric.obeys_pruning_laws() {
                    assert forall|k: int, d: int|
                        node_lo(*other) <= k < node_hi(*other) && 0 <= d < dim implies dists@[d]
                        <= #[trigger] metric.spec_accum(q[d], dataset.spec_pt(v@[k] as int, d), d) by {
                        if d == idx {
                            let p = dataset.spec_pt(v@[k] as int, d);
                            if first_is_child1 {
                                assert(p >= dh);
                                metric.lemma_pruning_laws(value, p, dh, d);
                            } else {
                                assert(p <= dl);
                                metric.lemma_pruning_laws(value, p, dl, d);
                            }
                        } else {
                            assert(dists@[d] == d0[d]);
                        }
                    }
                }
            }
            let w = result.worst_dist();
            let explore = match mindist2.checked_mul(eps_error) {
                Some(p) => p <= w,
                None => mindist2 < 0,
            };
            if explore {
                search_level(dataset, metric, v, dim, result, query, other, mindist2, dists, eps_error, active, Ghost(h1), Ghost(seen1));
                proof {
                    lemma_seen_subset(
                        *result,
                        seen1.union(home_points(*other, v@, query@)),
                        seen1,
                        metric,
                        dataset,
                        query@,
                        dim as nat,
                        act,
                    );
                }
            } else {
                proof {
                    if metric.obeys_pruning_laws() {
                        assert(e * mindist2 > w) by {
                            assert(mindist2 * eps_error == e * mindist2) by (nonlinear_arith)
                                requires
                                    e == eps_error,
                            ;
                            if mindist2 < 0 {
                                assert(e * mindist2 < 0) by (nonlinear_arith)
                                    requires
                                        e >= 1,
                                        mindist2 < 0,
                                ;
                            }
                        }
                        lemma_pruned_far(
                            metric,
                            dataset,
                            q,
                            v@,
                            node_lo(*other),
                            node_hi(*other),
                            dim as nat,
                            dists@,
                            mindist2 as int,
                            e,
                            result.worst_spec() as int,
                        );
                    }
                    lemma_prune(*result, h1, other_set, metric, dataset, q, dim as nat, e, act);
                }
            }
            dists[idx] = old_dist;
            proof {
                assert(dists@ =~= d0);
                assert(h1.union(other_set) =~= handled.union(range_set(v@, node_lo(*node), node_hi(*node))));
            }
        },
    }
}

/// Points whose per-dimension lower bounds add up to more than `worst`, even
/// allowing the factor `e`, are all farther than `worst` up to that factor.
proof fn lemma_pruned_far<D: KdTreeDataset, M: DistanceMetric>(
    metric: &M,
    ds: &D,
    q: Seq<i32>,
    v: Seq<usize>,
    lo: int,
    hi: int,
    dim: nat,
    dists: Seq<i128>,
    mindist: int,
    e: int,
    worst: int,
)
    requires
        metric.obeys_pruning_laws(),
        dim <= q.len(),
        dists.len() == dim,
        mindist == seq_sum(ints(dists)),
        e >= 1,
        e * mindist > worst,
        forall|k: int, d: int|
            lo <= k < hi && 0 <= d < dim ==> dists[d] <= #[trigger] metric.spec_accum(q[d], ds.spec_pt(v[k] as int, d), d),
    ensures
        forall|c: int| #[trigger] range_set(v, lo, hi).contains(c) ==> e * dist_of(metric, ds, q, dim, c) > worst,
{
    assert forall|c: int| #[trigger] range_set(v, lo, hi).contains(c) implies e * dist_of(metric, ds, q, dim, c) > worst by {
        let k = choose|k: int| lo <= k < hi && v[k] as int == c;
        assert forall|d: int| 0 <= d < dim implies #[trigger] dists[d] <= metric.spec_accum(q[d], ds.spec_pt(c, d), d) by {
            assert(dists[d] <= metric.spec_accum(q[d], ds.spec_pt(v[k] as int, d), d));
        }
        lemma_dist_lower_bound(metric, ds, q, dim, c, dists);
        let dc = dist_of(metric, ds, q, dim, c);
        assert(e * dc >= e * mindist) by (nonlinear_arith)
            requires
                dc >= mindist,
                e >= 1,
        ;
    }
}

/// The lower bounds a query has to a box: per dimension the contribution to
/// the nearer face when the query lies outside, else zero; and their sum.
pub fn initial_distances<M: DistanceMetric>(metric: &M, query: &[i32], bbox: &Vec<Interval>, dim: usize) -> (r: (i128, Vec<i128>))
    requires
        bbox@.len() == dim,
        dim <= query@.len(),
        dim <= max_dim(),
        forall|d: int| 0 <= d < dim ==> (#[trigger] bbox@[d]).low <= bbox@[d].high,
    ensures
        r.1@.len() == dim,
        r.0 == seq_sum(ints(r.1@)),
        forall|d: int| 0 <= d < dim ==> -accum_limit() <= #[trigger] r.1@[d] <= accum_limit(),
        forall|d: int|
            0 <= d < dim ==> #[trigger] r.1@[d] == (if query@[d] < bbox@[d].low {
                metric.spec_accum(query@[d], bbox@[d].low, d)
            } else if query@[d] > bbox@[d].high {
                metric.spec_accum(query@[d], bbox@[d].high, d)
            } else {
                0
            }),
{
    let mut dists: Vec<i128> = Vec::new();
    let mut i: usize = 0;
    while i < dim
        invariant
            0 <= i <= dim,
            dists@.len() == i,
            forall|d: int| 0 <= d < i ==> #[trigger] dists@[d] == 0,
        decreases dim - i,
    {
        dists.push(0);
        i = i + 1;
    }
    proof {
        assert(ints(dists@) =~= Seq::new(dim as nat, |i: int| 0int));
        lemma_seq_sum_zeros(dim as nat);
    }
    let mut dist: i128 = 0;
    let mut d: usize = 0;
    while d < dim
        invariant
            bbox@.len() == dim,
            dim <= query@.len(),
            dim <= max_dim(),
            forall|d: int| 0 <= d < dim ==> (#[trigger] bbox@[d]).low <= bbox@[d].high,
            0 <= d <= dim,
            dists@.len() == dim,
            dist == seq_sum(ints(dists@)),
            forall|j: int| 0 <= j < dim ==> -accum_limit() <= #[trigger] dists@[j] <= accum_limit(),
            forall|j: int| d <= j < dim ==> #[trigger] dists@[j] == 0,
            forall|j: int|
                0 <= j < d ==> #[trigger] dists@[j] == (if query@[j] < bbox@[j].low {
                    metric.spec_accum(query@[j], bbox@[j].low, j)
                } else if query@[j] > bbox@[j].high {
                    metric.spec_accum(query@[j], bbox@[j].high, j)
                } else {
                    0
                }),
        decreases dim - d,
    {
        let q = query[d];
        let b = bbox[d];
        let ghost before = dists@;
        if q < b.low || q > b.high {
            let a = if q < b.low {
                metric.accum_dist(q, b.low, d)
            } else {
                metric.accum_dist(q, b.high, d)
            };
            dists[d] = a;
            proof {
                lemma_seq_sum_update(ints(before), d as int, a as int);
                assert(ints(dists@) =~= ints(before).update(d as int, a as int));
                lemma_seq_sum_bound(ints(dists@), accum_limit());
                assert(dim * accum_limit() <= max_dim() * accum_limit()) by (nonlinear_arith)
                    requires
                        dim <= max_dim(),
                ;
            }
            dist = dist + a;
        }
        d = d + 1;
    }
    (dist, dists)
}

/// Sorting the items keeps the invariant.
pub proof fn lemma_sort_keeps_inv<D: KdTreeDataset, M: DistanceMetric>(
    col: Collector,
    col2: Collector,
    handled: Set<int>,
    metric: &M,
    ds: &D,
    q: Seq<i32>,
    dim: nat,
    e: int,
    act: Option<Seq<Option<usize>>>,
)
    requires
        search_inv(col, handled, metric, ds, q, dim, e, act),
        col2.wf(),
        col2.bounded == col.bounded,
        col2.capacity == col.capacity,
        col2.radius == col.radius,
        col2.first_match == col.first_match,
        col2.items@.to_multiset() == col.items@.to_multiset(),
        col2.bounded ==> col2.items@ == col.items@,
    ensures
        search_inv(col2, handled, metric, ds, q, dim, e, act),
{
    let s = col.items@;
    let t = col2.items@;
    if !col.bounded {
        assert forall|k: int| 0 <= k < t.len() implies s.contains(#[trigger] t[k]) by {
            assert(t.contains(t[k]));
            assert(t.to_multiset().count(t[k]) > 0);
        }
        assert forall|k: int| 0 <= k < s.len() implies t.contains(#[trigger] s[k]) by {
            assert(s.contains(s[k]));
            assert(s.to_multiset().count(s[k]) > 0);
        }
        assert forall|k: int| 0 <= k < t.len() implies {
            &&& handled.contains((#[trigger] t[k]).index as int)
            &&& t[k].distance == dist_of(metric, ds, q, dim, t[k].index as int)
            &&& is_active(act, t[k].index as int)
        } by {
            assert(s.contains(t[k]));
            let j = choose|j: int| 0 <= j < s.len() && s[j] == t[k];
        }
        assert(s.no_duplicates()) by {
            assert forall|i: int, j: int| 0 <= i < s.len() && 0 <= j < s.len() && i != j implies s[i] != s[j] by {
                if i < j {
                    assert(s[i].index != s[j].index);
                } else {
                    assert(s[j].index != s[i].index);
                }
            }
        }
        s.lemma_multiset_has_no_duplicates();
        assert forall|i: int, j: int| 0 <= i < j < t.len() implies (#[trigger] t[i]).index != (#[trigger] t[j]).index by {
            assert(s.contains(t[i]));
            assert(s.contains(t[j]));
            let ii = choose|ii: int| 0 <= ii < s.len() && s[ii] == t[i];
            let jj = choose|jj: int| 0 <= jj < s.len() && s[jj] == t[j];
            if t[i].index == t[j].index {
                if ii < jj {
                    assert(s[ii].index != s[jj].index);
                } else if jj < ii {
                    assert(s[jj].index != s[ii].index);
                } else {
                    assert(t[i] == t[j]);
                    assert(t.to_multiset().count(t[i]) >= 2) by {
                        lemma_count_two(t, i, j);
                    }
                    assert(s.to_multiset().contains(t[i]));
                }
            }
        }
        if metric.obeys_pruning_laws() {
            assert forall|c: int| handled.contains(c) && is_active(act, c) && !holds_index(t, c) implies #[trigger] beyond(
                col2,
                dist_of(metric, ds, q, dim, c),
                e,
            ) by {
                if holds_index(s, c) {
                    let k = choose|k: int| 0 <= k < s.len() && s[k].index == c;
                    assert(t.contains(s[k]));
                    let kk = choose|kk: int| 0 <= kk < t.len() && t[kk] == s[k];
                    assert(holds_index(t, c));
                }
                assert(beyond(col, dist_of(metric, ds, q, dim, c), e));
                assert(col2.worst_spec() == col.worst_spec());
            }
            assert forall|c: int| handled.contains(c) && is_active(act, c) && !holds_index(t, c) implies #[trigger] loses_tie(
                col2,
                dist_of(metric, ds, q, dim, c),
                c,
                e,
            ) by {}
        }
    } else {
        assert(t == s);
        assert(col2.worst_spec() == col.worst_spec());
        if metric.obeys_pruning_laws() {
            assert forall|c: int| handled.contains(c) && is_active(act, c) && !holds_index(t, c) implies #[trigger] beyond(
                col2,
                dist_of(metric, ds, q, dim, c),
                e,
            ) by {
                assert(beyond(col, dist_of(metric, ds, q, dim, c), e));
            }
            assert forall|c: int| handled.contains(c) && is_active(act, c) && !holds_index(t, c) implies #[trigger] loses_tie(
                col2,
                dist_of(metric, ds, q, dim, c),
                c,
                e,
            ) by {
                assert(loses_tie(col, dist_of(metric, ds, q, dim, c), c, e));
            }
        }
    }
}

/// An element at two places of a sequence is counted at least twice.
proof fn lemma_count_two(t: Seq<ResultItem>, i: int, j: int)
    requires
        0 <= i < j < t.len(),
        t[i] == t[j],
    ensures
        t.to_multiset().count(t[i]) >= 2,
{
    broadcast use vstd::multiset::group_multiset_axioms;
    let x = t[i];
    let r = t.remove(j);
    t.remove_ensures(j);
    assert(r[i] == x);
    assert(r.contains(x));
    assert(r.to_multiset().count(x) > 0);
    assert(r.to_multiset() == t.to_multiset().remove(t[j]));
}

/// `items` answers a nearest-neighbor query among the points `cands`: at most
/// `k` distinct candidates below `radius`, at their true distances, nearest
/// first (equal distances by index with `first_match`); and, for a metric that
/// obeys the pruning laws, every candidate left out is, up to the factor `e`,
/// at least as far as the last item when `k` items were found, and at least
/// `radius` away when fewer were; with `first_match`, one left out at the
/// distance of the last item (with `e` exact there) has a larger index.
pub open spec fn knn_answer<D: KdTreeDataset, M: DistanceMetric>(
    items: Seq<ResultItem>,
    cands: Set<int>,
    metric: &M,
    ds: &D,
    q: Seq<i32>,
    dim: nat,
    k: nat,
    radius: int,
    e: int,
    first_match: bool,
) -> bool {
    &&& items.len() <= k
    &&& sorted_by_distance(items)
    &&& first_match ==> sorted_lex(items)
    &&& forall|i: int|
        0 <= i < items.len() ==> {
            &&& cands.contains((#[trigger] items[i]).index as int)
            &&& items[i].distance == dist_of(metric, ds, q, dim, items[i].index as int)
            &&& items[i].distance < radius
        }
    &&& forall|i: int, j: int| 0 <= i < j < items.len() ==> (#[trigger] items[i]).index != (#[trigger] items[j]).index
    &&& metric.obeys_pruning_laws() ==> forall|c: int|
        #[trigger] cands.contains(c) && !holds_index(items, c) ==> {
            &&& items.len() < k ==> e * dist_of(metric, ds, q, dim, c) >= radius
            &&& 0 < k == items.len() ==> e * dist_of(metric, ds, q, dim, c) >= items.last().distance
            &&& first_match && 0 < k == items.len() && dist_of(metric, ds, q, dim, c) == items.last().distance && (e == 1
                || dist_of(metric, ds, q, dim, c) == 0) ==> c > items.last().index
        }
}

/// `items` answers a radius query among the points `cands`: distinct
/// candidates at their true distances, all below `radius`; and, for a metric
/// that obeys the pruning laws, every candidate left out is at least `radius`
/// away up to the factor `e`.
pub open spec fn radius_answer<D: KdTreeDataset, M: DistanceMetric>(
    items: Seq<ResultItem>,
    cands: Set<int>,
    metric: &M,
    ds: &D,
    q: Seq<i32>,
    dim: nat,
    radius: int,
    e: int,
) -> bool {
    &&& forall|i: int|
        0 <= i < items.len() ==> {
            &&& cands.contains((#[trigger] items[i]).index as int)
            &&& items[i].distance == dist_of(metric, ds, q, dim, items[i].index as int)
            &&& items[i].distance < radius
        }
    &&& forall|i: int, j: int| 0 <= i < j < items.len() ==> (#[trigger] items[i]).index != (#[trigger] items[j]).index
    &&& metric.obeys_pruning_laws() ==> forall|c: int|
        #[trigger] cands.contains(c) && !holds_index(items, c) ==> e * dist_of(metric, ds, q, dim, c) >= radius
}

/// Only the first `dim` components of a query count: two queries that agree on
/// them have the same nearest-neighbor answers and the same radius answers.
pub proof fn lemma_extra_components_ignored<D: KdTreeDataset, M: DistanceMetric>(
    items: Seq<ResultItem>,
    cands: Set<int>,
    metric: &M,
    ds: &D,
    q1: Seq<i32>,
    q2: Seq<i32>,
    dim: nat,
    k: nat,
    radius: int,
    e: int,
    first_match: bool,
)
    requires
        dim <= q1.len(),
        dim <= q2.len(),
        q1.take(dim as int) == q2.take(dim as int),
    ensures
        forall|c: int| dist_of(metric, ds, q1, dim, c) == #[trigger] dist_of(metric, ds, q2, dim, c),
        knn_answer(items, cands, metric, ds, q1, dim, k, radius, e, first_match) == knn_answer(
            items,
            cands,
            metric,
            ds,
            q2,
            dim,
            k,
            radius,
            e,
            first_match,
        ),
        radius_answer(items, cands, metric, ds, q1, dim, radius, e) == radius_answer(items, cands, metric, ds, q2, dim, radius, e),
{
}

/// With the exact factor and a metric that obeys the pruning laws, a radius
/// answer is fixed up to order: two answers among the same candidates hold
/// the same items, each once, so a sorted answer is a reordering of an
/// unsorted one.
pub proof fn lemma_radius_answers_agree<D: KdTreeDataset, M: DistanceMetric>(
    a: Seq<ResultItem>,
    b: Seq<ResultItem>,
    cands: Set<int>,
    metric: &M,
    ds: &D,
    q: Seq<i32>,
    dim: nat,
    radius: int,
)
    requires
        metric.obeys_pruning_laws(),
        radius_answer(a, cands, metric, ds, q, dim, radius, 1),
        radius_answer(b, cands, metric, ds, q, dim, radius, 1),
    ensures
        a.no_duplicates(),
        b.no_duplicates(),
        a.to_set() == b.to_set(),
        a.len() == b.len(),
{
    lemma_answer_within(a, b, cands, metric, ds, q, dim, radius);
    lemma_answer_within(b, a, cands, metric, ds, q, dim, radius);
    assert(a.to_set() =~= b.to_set());
    a.unique_seq_to_set();
    b.unique_seq_to_set();
}

/// Every item of one exact radius answer is an item of another.
proof fn lemma_answer_within<D: KdTreeDataset, M: DistanceMetric>(
    a: Seq<ResultItem>,
    b: Seq<ResultItem>,
    cands: Set<int>,
    metric: &M,
    ds: &D,
    q: Seq<i32>,
    dim: nat,
    radius: int,
)
    requires
        metric.obeys_pruning_laws(),
        radius_answer(a, cands, metric, ds, q, dim, radius, 1),
        radius_answer(b, cands, metric, ds, q, dim, radius, 1),
    ensures
        a.no_duplicates(),
        forall|i: int| 0 <= i < a.len() ==> b.contains(#[trigger] a[i]),
{
    assert forall|i: int, j: int| 0 <= i < a.len() && 0 <= j < a.len() && i != j implies a[i] != a[j] by {
        if i < j {
            assert(a[i].index != a[j].index);
        } else {
            assert(a[j].index != a[i].index);
        }
    }
    assert forall|i: int| 0 <= i < a.len() implies b.contains(#[trigger] a[i]) by {
        let c = a[i].index as int;
        assert(cands.contains(c));
        if !holds_index(b, c) {
            assert(1 * dist_of(metric, ds, q, dim, c) >= radius);
        }
        let k = choose|k: int| 0 <= k < b.len() && b[k].index == c;
        assert(b[k] == a[i]);
    }
}

/// The indices of the items of `s`.
pub open spec fn index_seq(s: Seq<ResultItem>) -> Seq<int> {
    s.map_values(|x: ResultItem| x.index as int)
}

/// `a` comes strictly before `b` by distance, then index.
pub open spec fn lex_lt(a: ResultItem, b: ResultItem) -> bool {
    a.distance < b.distance || (a.distance == b.distance && a.index < b.index)
}

/// With `first_match`, the exact factor and a metric that obeys the pruning
/// laws, a nearest-neighbor answer is unique: two answers among the same
/// candidates are equal. So a search with `eps` 0 returns exactly what the
/// plain nearest-neighbor search returns.
pub proof fn lemma_knn_answer_unique<D: KdTreeDataset, M: DistanceMetric>(
    a: Seq<ResultItem>,
    b: Seq<ResultItem>,
    cands: Set<int>,
    metric: &M,
    ds: &D,
    q: Seq<i32>,
    dim: nat,
    k: nat,
    radius: int,
)
    requires
        metric.obeys_pruning_laws(),
        knn_answer(a, cands, metric, ds, q, dim, k, radius, 1, true),
        knn_answer(b, cands, metric, ds, q, dim, k, radius, 1, true),
    ensures
        a == b,
{
    lemma_knn_within(a, b, cands, metric, ds, q, dim, k, radius);
    lemma_knn_within(b, a, cands, metric, ds, q, dim, k, radius);
    a.lemma_multiset_has_no_duplicates();
    b.lemma_multiset_has_no_duplicates();
    assert forall|x: ResultItem| a.to_multiset().count(x) == b.to_multiset().count(x) by {
        if a.contains(x) {
            let i = choose|i: int| 0 <= i < a.len() && a[i] == x;
            assert(b.contains(a[i]));
        } else if b.contains(x) {
            let j = choose|j: int| 0 <= j < b.len() && b[j] == x;
            assert(a.contains(b[j]));
        }
    }
    assert(a.to_multiset() =~= b.to_multiset());
    let leq = |x: ResultItem, y: ResultItem| lex_le(x, y);
    assert(sorted_by(a, leq));
    assert(sorted_by(b, leq));
    assert(total_ordering(leq)) by {
        assert forall|x: ResultItem, y: ResultItem| #[trigger] leq(x, y) && #[trigger] leq(y, x) implies x == y by {}
    }
    vstd::seq_lib::lemma_sorted_unique(a, b, leq);
}

/// Every item of one exact nearest-neighbor answer with `first_match` is an
/// item of another among the same candidates.
proof fn lemma_knn_within<D: KdTreeDataset, M: DistanceMetric>(
    a: Seq<ResultItem>,
    b: Seq<ResultItem>,
    cands: Set<int>,
    metric: &M,
    ds: &D,
    q: Seq<i32>,
    dim: nat,
    k: nat,
    radius: int,
)
    requires
        metric.obeys_pruning_laws(),
        knn_answer(a, cands, metric, ds, q, dim, k, radius, 1, true),
        knn_answer(b, cands, metric, ds, q, dim, k, radius, 1, true),
    ensures
        a.no_duplicates(),
        forall|i: int| 0 <= i < a.len() ==> b.contains(#[trigger] a[i]),
{
    assert forall|i: int, j: int| 0 <= i < a.len() && 0 <= j < a.len() && i != j implies a[i] != a[j] by {
        if i < j {
            assert(a[i].index != a[j].index);
        } else {
            assert(a[j].index != a[i].index);
        }
    }
    lemma_index_set(a);
    lemma_index_set(b);
    assert forall|i: int| 0 <= i < a.len() implies b.contains(#[trigger] a[i]) by {
        let c = a[i].index as int;
        assert(cands.contains(c));
        if !holds_index(b, c) {
            // `b` is full, and its last item comes before `a[i]`
            assert(1 * dist_of(metric, ds, q, dim, c) == dist_of(metric, ds, q, dim, c));
            assert(b.len() == k && k > 0);
            let lb = b[b.len() - 1];
            assert(lex_lt(lb, a[i]));
            let ia = index_seq(a).to_set();
            let ib = index_seq(b).to_set();
            if ib.subset_of(ia) {
                vstd::set_lib::lemma_len_subset(ib, ia);
                vstd::set_lib::lemma_subset_equality(ib, ia);
                assert(index_seq(a)[i] == c);
                assert(ia.contains(c));
                assert(ib.contains(c));
                let j = choose|j: int| 0 <= j < index_seq(b).len() && index_seq(b)[j] == c;
                assert(b[j].index == c);
            } else {
                let y = choose|y: int| ib.contains(y) && !ia.contains(y);
                let j = choose|j: int| 0 <= j < index_seq(b).len() && index_seq(b)[j] == y;
                assert(b[j].index == y);
                assert(!holds_index(a, y)) by {
                    if holds_index(a, y) {
                        let m = choose|m: int| 0 <= m < a.len() && a[m].index == y;
                        assert(index_seq(a)[m] == y);
                    }
                }
                assert(cands.contains(y));
                assert(1 * dist_of(metric, ds, q, dim, y) == dist_of(metric, ds, q, dim, y));
                assert(a.len() == k);
                let la = a[a.len() - 1];
                assert(lex_lt(la, b[j]));
                if j < b.len() - 1 {
                    assert(lex_le(b[j], lb));
                }
                if i < a.len() - 1 {
                    assert(lex_le(a[i], la));
                }
                assert(false);
            }
        }
        let j = choose|j: int| 0 <= j < b.len() && b[j].index == c;
        assert(b[j] == a[i]);
    }
}

/// The approximation bound of a nearest-neighbor answer with the factor `e`:
/// whenever `k` distinct candidates all lie within `bound`, with `e * bound`
/// below the radius, `k` items are found and the last lies within
/// `e * bound`. With `e == 1` the answer is exact: its last item is no farther
/// than the `k`-th nearest candidate.
pub proof fn lemma_knn_approximation<D: KdTreeDataset, M: DistanceMetric>(
    items: Seq<ResultItem>,
    cands: Set<int>,
    metric: &M,
    ds: &D,
    q: Seq<i32>,
    dim: nat,
    k: nat,
    radius: int,
    e: int,
    first_match: bool,
    w: Seq<int>,
    bound: int,
)
    requires
        metric.obeys_pruning_laws(),
        dim <= q.len(),
        e >= 1,
        e * bound < radius,
        knn_answer(items, cands, metric, ds, q, dim, k, radius, e, first_match),
        0 < k,
        w.len() == k,
        w.no_duplicates(),
        forall|i: int| 0 <= i < w.len() ==> cands.contains(#[trigger] w[i]) && dist_of(metric, ds, q, dim, w[i]) <= bound,
    ensures
        items.len() == k,
        items.last().distance <= e * bound,
{
    lemma_dist_nonneg(metric, ds, q, dim, w[0]);
    assert(0 <= bound);
    assert(e * bound >= bound) by (nonlinear_arith)
        requires
            e >= 1,
            bound >= 0,
    ;
    if exists|i: int| 0 <= i < w.len() && !holds_index(items, w[i]) {
        let i = choose|i: int| 0 <= i < w.len() && !holds_index(items, w[i]);
        let d = dist_of(metric, ds, q, dim, w[i]);
        assert(cands.contains(w[i]));
        lemma_dist_nonneg(metric, ds, q, dim, w[i]);
        assert(e * d <= e * bound) by (nonlinear_arith)
            requires
                e >= 1,
                d <= bound,
        ;
        if items.len() < k {
            assert(e * d >= radius);
            assert(false);
        }
    } else {
        lemma_index_set(items);
        let ws = w.to_set();
        let is = index_seq(items).to_set();
        w.unique_seq_to_set();
        vstd::seq_lib::seq_to_set_is_finite(w);
        assert forall|c: int| #[trigger] ws.contains(c) implies is.contains(c) by {
            let i = choose|i: int| 0 <= i < w.len() && w[i] == c;
            assert(holds_index(items, w[i]));
        }
        assert(ws.subset_of(is));
        vstd::set_lib::lemma_len_subset(ws, is);
        assert(items.len() == k);
        vstd::set_lib::lemma_subset_equality(ws, is);
        let l = items.len() - 1;
        assert(holds_index(items, items[l].index as int));
        assert(is.contains(items[l].index as int));
        let i = choose|i: int| 0 <= i < w.len() && w[i] == items[l].index as int;
        assert(dist_of(metric, ds, q, dim, w[i]) <= bound);
    }
}

/// Distances under a metric that obeys the pruning laws are non-negative.
proof fn lemma_dist_nonneg<D: KdTreeDataset, M: DistanceMetric>(metric: &M, ds: &D, q: Seq<i32>, dim: nat, c: int)
    requires
        metric.obeys_pruning_laws(),
        dim <= q.len(),
    ensures
        0 <= dist_of(metric, ds, q, dim, c),
{
    let zeros = Seq::new(dim, |i: int| 0i128);
    assert forall|d: int| 0 <= d < dim implies #[trigger] zeros[d] <= metric.spec_accum(q[d], ds.spec_pt(c, d), d) by {
        metric.lemma_pruning_laws(q[d], ds.spec_pt(c, d), ds.spec_pt(c, d), d);
    }
    lemma_dist_lower_bound(metric, ds, q, dim, c, zeros);
}

/// The indices of items with distinct indices form a set of their number.
proof fn lemma_index_set(s: Seq<ResultItem>)
    requires
        forall|i: int, j: int| 0 <= i < j < s.len() ==> (#[trigger] s[i]).index != (#[trigger] s[j]).index,
    ensures
        index_seq(s).to_set().finite(),
        index_seq(s).to_set().len() == s.len(),
        forall|c: int| #[trigger] index_seq(s).to_set().contains(c) <==> holds_index(s, c),
{
    let t = index_seq(s);
    assert forall|i: int, j: int| 0 <= i < t.len() && 0 <= j < t.len() && i != j implies t[i] != t[j] by {
        if i < j {
            assert(s[i].index != s[j].index);
        } else {
            assert(s[j].index != s[i].index);
        }
    }
    t.unique_seq_to_set();
    vstd::seq_lib::seq_to_set_is_finite(t);
    assert forall|c: int| #[trigger] t.to_set().contains(c) <==> holds_index(s, c) by {
        if t.to_set().contains(c) {
            let j = choose|j: int| 0 <= j < t.len() && t[j] == c;
            assert(s[j].index == c);
        }
        if holds_index(s, c) {
            let j = choose|j: int| 0 <= j < s.len() && s[j].index == c;
            assert(t[j] == c);
        }
    }
}

/// An empty collector has handled nothing.
pub proof fn lemma_inv_empty<D: KdTreeDataset, M: DistanceMetric>(
    col: Collector,
    metric: &M,
    ds: &D,
    q: Seq<i32>,
    dim: nat,
    e: int,
    act: Option<Seq<Option<usize>>>,
)
    requires
        col.wf(),
        col.items@.len() == 0,
    ensures
        search_inv(col, Set::<int>::empty(), metric, ds, q, dim, e, act),
{
}

/// Once the active handled points are the candidates, a bounded collector
/// holds a nearest-neighbor answer among them.
pub proof fn lemma_knn_from_inv<D: KdTreeDataset, M: DistanceMetric>(
    col: Collector,
    handled: Set<int>,
    cands: Set<int>,
    metric: &M,
    ds: &D,
    q: Seq<i32>,
    dim: nat,
    e: int,
    act: Option<Seq<Option<usize>>>,
)
    requires
        search_inv(col, handled, metric, ds, q, dim, e, act),
        forall|c: int| #[trigger] cands.contains(c) <==> handled.contains(c) && is_active(act, c),
        col.bounded,
    ensures
        knn_answer(col.items@, cands, metric, ds, q, dim, col.capacity as nat, col.radius as int, e, col.first_match),
{
    assert forall|i: int| 0 <= i < col.items@.len() implies cands.contains((#[trigger] col.items@[i]).index as int) by {}
    if metric.obeys_pruning_laws() {
        assert forall|c: int| #[trigger] cands.contains(c) && !holds_index(col.items@, c) implies {
            &&& col.items@.len() < col.capacity ==> e * dist_of(metric, ds, q, dim, c) >= col.radius
            &&& 0 < col.capacity == col.items@.len() ==> e * dist_of(metric, ds, q, dim, c) >= col.items@.last().distance
            &&& col.first_match && 0 < col.capacity == col.items@.len() && dist_of(metric, ds, q, dim, c) == col.items@.last().distance
                && (e == 1 || dist_of(metric, ds, q, dim, c) == 0) ==> c > col.items@.last().index
        } by {
            assert(beyond(col, dist_of(metric, ds, q, dim, c), e));
            assert(loses_tie(col, dist_of(metric, ds, q, dim, c), c, e));
        }
    }
}

/// Once the active handled points are the candidates, an unbounded collector
/// holds a radius answer among them.
pub proof fn lemma_radius_from_inv<D: KdTreeDataset, M: DistanceMetric>(
    col: Collector,
    handled: Set<int>,
    cands: Set<int>,
    metric: &M,
    ds: &D,
    q: Seq<i32>,
    dim: nat,
    e: int,
    act: Option<Seq<Option<usize>>>,
)
    requires
        search_inv(col, handled, metric, ds, q, dim, e, act),
        forall|c: int| #[trigger] cands.contains(c) <==> handled.contains(c) && is_active(act, c),
        !col.bounded,
    ensures
        radius_answer(col.items@, cands, metric, ds, q, dim, col.radius as int, e),
{
    assert forall|i: int| 0 <= i < col.items@.len() implies cands.contains((#[trigger] col.items@[i]).index as int) by {}
    if metric.obeys_pruning_laws() {
        assert forall|c: int| #[trigger] cands.contains(c) && !holds_index(col.items@, c) implies e * dist_of(
            metric,
            ds,
            q,
            dim,
            c,
        ) >= col.radius by {
            assert(beyond(col, dist_of(metric, ds, q, dim, c), e));
        }
    }
}

} // verus!