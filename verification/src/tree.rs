use vstd::prelude::*;

use crate::codec::{
    cut_short, encodes, index_bytes, index_magic, lemma_save_load_round_trip, occurs_at, read_index, same_index, saved_box, saved_entries,
    u64_at, write_index,
};

use crate::dataset::KdTreeDataset;
use crate::error::{BoundingBoxProblem, IndexFileProblem, KdTreeError, Result};
use crate::metric::{accum_limit, max_dim, DistanceMetric};
use crate::result_set::{sorted_by_distance, Collector, KnnResultSet, RadiusResultSet, ResultItem, RknnResultSet};
use crate::search::{
    bounds_valid, filter_view, initial_distances, knn_answer, lemma_inv_empty, lemma_knn_from_inv,
    lemma_radius_from_inv, lemma_range_set_disjoint, lemma_range_set_extend, lemma_range_set_split,
    lemma_sort_keeps_inv, radius_answer, range_set, search_inv, search_level, lemma_extra_components_ignored,
    lemma_knn_answer_unique, seen_inv, home_points, lemma_seen_sort, knn_covers, radius_covers, lemma_knn_covers,
    lemma_radius_covers,
};
use crate::perm::{
    all_below, lemma_range_perm_below, lemma_range_perm_from, lemma_range_perm_multiset, lemma_range_perm_join, lemma_range_perm_refl,
    lemma_range_perm_to, lemma_range_perm_trans, lemma_range_perm_widen, lemma_swap_range_perm, range_perm,
};

verus! {

/// Closed interval for one dimension of a bounding box.
#[derive(Clone, Copy, Debug, PartialEq, Eq, Structural)]
pub struct Interval {
    pub low: i32,
    pub high: i32,
}

impl Interval {
    /// The interval `[low, high]`.
    pub fn new(low: i32, high: i32) -> (r: Self)
        ensures
            r == (Interval { low, high }),
    {
        Interval { low, high }
    }

    /// The interval `[0, 0]`.
    pub fn zero() -> (r: Self)
        ensures
            r == (Interval { low: 0, high: 0 }),
    {
        Interval { low: 0, high: 0 }
    }
}

/// A node of the tree. A leaf covers the entries `[left, right)` of the
/// permutation of point indices; a split node divides its points along
/// dimension `divfeat`: those of `child1` have coordinates at most `divlow`,
/// those of `child2` at least `divhigh`.
#[derive(Debug)]
pub enum Node {
    Leaf { left: usize, right: usize },
    Split { divfeat: usize, divlow: i32, divhigh: i32, child1: Box<Node>, child2: Box<Node> },
}

/// First entry of the permutation that `n` covers.
pub open spec fn node_lo(n: Node) -> int
    decreases n,
{
    match n {
        Node::Leaf { left, right } => left as int,
        Node::Split { child1, .. } => node_lo(*child1),
    }
}

/// One past the last entry of the permutation that `n` covers.
pub open spec fn node_hi(n: Node) -> int
    decreases n,
{
    match n {
        Node::Leaf { left, right } => right as int,
        Node::Split { child2, .. } => node_hi(*child2),
    }
}

/// `n` is a valid subtree over the entries of `v` it covers, for the points of `ds`.
pub open spec fn node_wf<D: KdTreeDataset>(n: Node, v: Seq<usize>, ds: &D, dim: nat) -> bool
    decreases n,
{
    match n {
        Node::Leaf { left, right } => left <= right && right <= v.len(),
        Node::Split { divfeat, divlow, divhigh, child1, child2 } => {
            &&& divfeat < dim
            &&& divlow <= divhigh
            &&& node_wf(*child1, v, ds, dim)
            &&& node_wf(*child2, v, ds, dim)
            &&& node_hi(*child1) == node_lo(*child2)
            &&& forall|k: int|
                node_lo(*child1) <= k < node_hi(*child1) ==> ds.spec_pt(#[trigger] v[k] as int, divfeat as int)
                    <= divlow
            &&& forall|k: int|
                node_lo(*child2) <= k < node_hi(*child2) ==> ds.spec_pt(#[trigger] v[k] as int, divfeat as int)
                    >= divhigh
        },
    }
}

/// The points of `ds` can be read at every entry of `v` in the first `dim` dimensions.
pub open spec fn readable<D: KdTreeDataset>(ds: &D, v: Seq<usize>, dim: nat) -> bool {
    &&& all_below(v, ds.spec_point_count())
    &&& v.len() > 0 ==> dim <= ds.spec_point_dim()
}

/// Every point at an entry of `v` in `[lo, hi)` has its coordinate `d` inside `iv`.
pub open spec fn dim_contains<D: KdTreeDataset>(iv: Interval, v: Seq<usize>, ds: &D, lo: int, hi: int, d: int) -> bool {
    forall|k: int| lo <= k < hi ==> iv.low <= #[trigger] ds.spec_pt(v[k] as int, d) <= iv.high
}

/// Every point at an entry of `v` in `[lo, hi)` lies inside `b`.
pub open spec fn bbox_contains<D: KdTreeDataset>(b: Seq<Interval>, v: Seq<usize>, ds: &D, lo: int, hi: int, dim: nat) -> bool {
    &&& b.len() == dim
    &&& forall|d: int| 0 <= d < dim ==> #[trigger] dim_contains(b[d], v, ds, lo, hi, d)
}

/// Some point at an entry of `v` in `[lo, hi)` has coordinate `x` in dimension `d`.
pub open spec fn attained<D: KdTreeDataset>(x: int, v: Seq<usize>, ds: &D, lo: int, hi: int, d: int) -> bool {
    exists|k: int| lo <= k < hi && #[trigger] ds.spec_pt(v[k] as int, d) == x
}

/// `iv` is the smallest interval around coordinate `d` of the points at the entries `[lo, hi)` of `v`.
pub open spec fn dim_tight<D: KdTreeDataset>(iv: Interval, v: Seq<usize>, ds: &D, lo: int, hi: int, d: int) -> bool {
    &&& dim_contains(iv, v, ds, lo, hi, d)
    &&& attained(iv.low as int, v, ds, lo, hi, d)
    &&& attained(iv.high as int, v, ds, lo, hi, d)
}

/// `b` is the smallest box around the points at the entries `[lo, hi)` of `v`.
pub open spec fn tight_bbox<D: KdTreeDataset>(b: Seq<Interval>, v: Seq<usize>, ds: &D, lo: int, hi: int, dim: nat) -> bool {
    &&& b.len() == dim
    &&& forall|d: int| 0 <= d < dim ==> #[trigger] dim_tight(b[d], v, ds, lo, hi, d)
}

/// A tight box contains its points.
pub proof fn lemma_tight_contains<D: KdTreeDataset>(b: Seq<Interval>, v: Seq<usize>, ds: &D, lo: int, hi: int, dim: nat)
    requires
        tight_bbox(b, v, ds, lo, hi, dim),
    ensures
        bbox_contains(b, v, ds, lo, hi, dim),
{
    assert forall|d: int| 0 <= d < dim implies #[trigger] dim_contains(b[d], v, ds, lo, hi, d) by {
        assert(dim_tight(b[d], v, ds, lo, hi, d));
    }
}

/// Tightness of a box depends only on the entries of its range.
pub proof fn lemma_tight_frame<D: KdTreeDataset>(b: Seq<Interval>, v1: Seq<usize>, v2: Seq<usize>, ds: &D, lo: int, hi: int, dim: nat)
    requires
        tight_bbox(b, v1, ds, lo, hi, dim),
        forall|k: int| lo <= k < hi ==> #[trigger] v1[k] == v2[k],
    ensures
        tight_bbox(b, v2, ds, lo, hi, dim),
{
    assert forall|d: int| 0 <= d < dim implies #[trigger] dim_tight(b[d], v2, ds, lo, hi, d) by {
        assert(dim_tight(b[d], v1, ds, lo, hi, d));
        assert forall|k: int| lo <= k < hi implies b[d].low <= #[trigger] ds.spec_pt(v2[k] as int, d) <= b[d].high by {
            assert(v1[k] == v2[k]);
            assert(b[d].low <= ds.spec_pt(v1[k] as int, d) <= b[d].high);
        }
        let kl = choose|k: int| lo <= k < hi && #[trigger] ds.spec_pt(v1[k] as int, d) == b[d].low as int;
        assert(v1[kl] == v2[kl]);
        assert(ds.spec_pt(v2[kl] as int, d) == b[d].low as int);
        let kh = choose|k: int| lo <= k < hi && #[trigger] ds.spec_pt(v1[k] as int, d) == b[d].high as int;
        assert(v1[kh] == v2[kh]);
        assert(ds.spec_pt(v2[kh] as int, d) == b[d].high as int);
    }
}

/// The range a valid node covers lies inside the permutation.
pub proof fn lemma_node_range<D: KdTreeDataset>(n: Node, v: Seq<usize>, ds: &D, dim: nat)
    requires
        node_wf(n, v, ds, dim),
    ensures
        0 <= node_lo(n) <= node_hi(n) <= v.len(),
    decreases n,
{
    match n {
        Node::Leaf { .. } => {},
        Node::Split { child1, child2, .. } => {
            lemma_node_range(*child1, v, ds, dim);
            lemma_node_range(*child2, v, ds, dim);
        },
    }
}

/// A valid node stays valid when entries outside its range change.
pub proof fn lemma_node_wf_frame<D: KdTreeDataset>(n: Node, v1: Seq<usize>, v2: Seq<usize>, ds: &D, dim: nat)
    requires
        node_wf(n, v1, ds, dim),
        v1.len() == v2.len(),
        forall|k: int| node_lo(n) <= k < node_hi(n) ==> #[trigger] v1[k] == v2[k],
    ensures
        node_wf(n, v2, ds, dim),
    decreases n,
{
    lemma_node_range(n, v1, ds, dim);
    match n {
        Node::Leaf { .. } => {},
        Node::Split { divfeat, divlow, divhigh, child1, child2 } => {
            lemma_node_range(*child1, v1, ds, dim);
            lemma_node_range(*child2, v1, ds, dim);
            lemma_node_wf_frame(*child1, v1, v2, ds, dim);
            lemma_node_wf_frame(*child2, v1, v2, ds, dim);
            assert forall|k: int| node_lo(*child1) <= k < node_hi(*child1) implies ds.spec_pt(#[trigger] v2[k] as int, divfeat as int) <= divlow by {
                assert(v1[k] == v2[k]);
            }
            assert forall|k: int| node_lo(*child2) <= k < node_hi(*child2) implies ds.spec_pt(#[trigger] v2[k] as int, divfeat as int) >= divhigh by {
                assert(v1[k] == v2[k]);
            }
        },
    }
}

/// The shape a build gives a subtree: every leaf holds between one and
/// `leaf` entries, a node splits exactly when it covers more than `leaf`
/// entries, and each split's `divlow` and `divhigh` are coordinates of
/// points of its first and second child.
pub open spec fn node_shape<D: KdTreeDataset>(n: Node, v: Seq<usize>, ds: &D, leaf: nat) -> bool
    decreases n,
{
    match n {
        Node::Leaf { left, right } => 1 <= right - left <= leaf,
        Node::Split { divfeat, divlow, divhigh, child1, child2 } => {
            &&& node_hi(*child2) - node_lo(*child1) > leaf
            &&& node_shape(*child1, v, ds, leaf)
            &&& node_shape(*child2, v, ds, leaf)
            &&& attained(divlow as int, v, ds, node_lo(*child1), node_hi(*child1), divfeat as int)
            &&& attained(divhigh as int, v, ds, node_lo(*child2), node_hi(*child2), divfeat as int)
        },
    }
}

/// The shape of a valid node depends only on the entries of its range.
pub proof fn lemma_node_shape_frame<D: KdTreeDataset>(n: Node, v1: Seq<usize>, v2: Seq<usize>, ds: &D, dim: nat, leaf: nat)
    requires
        node_wf(n, v1, ds, dim),
        node_shape(n, v1, ds, leaf),
        v1.len() == v2.len(),
        forall|k: int| node_lo(n) <= k < node_hi(n) ==> #[trigger] v1[k] == v2[k],
    ensures
        node_shape(n, v2, ds, leaf),
    decreases n,
{
    lemma_node_range(n, v1, ds, dim);
    match n {
        Node::Leaf { .. } => {},
        Node::Split { divfeat, divlow, divhigh, child1, child2 } => {
            lemma_node_range(*child1, v1, ds, dim);
            lemma_node_range(*child2, v1, ds, dim);
            lemma_node_shape_frame(*child1, v1, v2, ds, dim, leaf);
            lemma_node_shape_frame(*child2, v1, v2, ds, dim, leaf);
            let k1 = choose|k: int| node_lo(*child1) <= k < node_hi(*child1) && #[trigger] ds.spec_pt(v1[k] as int, divfeat as int) == divlow as int;
            assert(v1[k1] == v2[k1]);
            assert(attained(divlow as int, v2, ds, node_lo(*child1), node_hi(*child1), divfeat as int));
            let k2 = choose|k: int| node_lo(*child2) <= k < node_hi(*child2) && #[trigger] ds.spec_pt(v1[k] as int, divfeat as int) == divhigh as int;
            assert(v1[k2] == v2[k2]);
            assert(attained(divhigh as int, v2, ds, node_lo(*child2), node_hi(*child2), divfeat as int));
        },
    }
}

/// Exchanges the entries `i` and `j`.
fn swap_entries(v: &mut Vec<usize>, i: usize, j: usize)
    requires
        i < old(v)@.len(),
        j < old(v)@.len(),
    ensures
        final(v)@ == old(v)@.update(i as int, old(v)@[j as int]).update(j as int, old(v)@[i as int]),
{
    let a = v[i];
    let b = v[j];
    v[i] = b;
    v[j] = a;
}

/// Partitions the entries `[ind, ind + count)` by coordinate `cutfeat`: first
/// those below `cutval`, then those equal to it, then those above it. Returns
/// the ends of the first two groups, relative to `ind`.
fn plane_split<D: KdTreeDataset>(dataset: &D, v: &mut Vec<usize>, ind: usize, count: usize, cutfeat: usize, cutval: i32) -> (r: (usize, usize))
    requires
        ind + count <= old(v)@.len(),
        readable(dataset, old(v)@, (cutfeat + 1) as nat),
    ensures
        range_perm(old(v)@, final(v)@, ind as int, ind + count),
        all_below(final(v)@, dataset.spec_point_count()),
        r.0 <= r.1 <= count,
        forall|k: int| ind <= k < ind + r.0 ==> dataset.spec_pt(#[trigger] final(v)@[k] as int, cutfeat as int) < cutval,
        forall|k: int| ind + r.0 <= k < ind + r.1 ==> dataset.spec_pt(#[trigger] final(v)@[k] as int, cutfeat as int) == cutval,
        forall|k: int| ind + r.1 <= k < ind + count ==> dataset.spec_pt(#[trigger] final(v)@[k] as int, cutfeat as int) > cutval,
{
    let ghost v0 = v@;
    let _len = v.len();
    let mut left: usize = 0;
    let mut mid: usize = 0;
    let mut right: usize = count;
    proof { lemma_range_perm_refl(v0, ind as int, ind + count); }
    while mid < right
        invariant
            ind + count <= v0.len(),
            v0.len() <= usize::MAX,
            readable(dataset, v0, (cutfeat + 1) as nat),
            0 <= left <= mid <= right <= count,
            range_perm(v0, v@, ind as int, ind + count),
            all_below(v@, dataset.spec_point_count()),
            forall|k: int| ind <= k < ind + left ==> dataset.spec_pt(#[trigger] v@[k] as int, cutfeat as int) < cutval,
            forall|k: int| ind + left <= k < ind + mid ==> dataset.spec_pt(#[trigger] v@[k] as int, cutfeat as int) == cutval,
            forall|k: int| ind + right <= k < ind + count ==> dataset.spec_pt(#[trigger] v@[k] as int, cutfeat as int) > cutval,
        decreases right - mid,
    {
        let value = dataset.kdtree_get_pt(v[ind + mid], cutfeat);
        let ghost before = v@;
        if value < cutval {
            proof { lemma_swap_range_perm(before, ind + left, ind + mid, ind as int, ind + count); }
            swap_entries(v, ind + left, ind + mid);
            proof { lemma_range_perm_trans(v0, before, v@, ind as int, ind + count); }
            assert forall|k: int| ind <= k < ind + left + 1 implies dataset.spec_pt(#[trigger] v@[k] as int, cutfeat as int) < cutval by {
                if k < ind + left {
                    assert(v@[k] == before[k]);
                }
            }
            assert forall|k: int| ind + left + 1 <= k < ind + mid + 1 implies dataset.spec_pt(#[trigger] v@[k] as int, cutfeat as int) == cutval by {
                if k < ind + mid {
                    assert(v@[k] == before[k]);
                } else {
                    assert(v@[k] == before[ind + left]);
                }
            }
            assert forall|k: int| ind + right <= k < ind + count implies dataset.spec_pt(#[trigger] v@[k] as int, cutfeat as int) > cutval by {
                assert(v@[k] == before[k]);
            }
            left = left + 1;
            mid = mid + 1;
        } else if value > cutval {
            right = right - 1;
            proof { lemma_swap_range_perm(before, ind + mid, ind + right, ind as int, ind + count); }
            swap_entries(v, ind + mid, ind + right);
            proof { lemma_range_perm_trans(v0, before, v@, ind as int, ind + count); }
            assert forall|k: int| ind <= k < ind + left implies dataset.spec_pt(#[trigger] v@[k] as int, cutfeat as int) < cutval by {
                assert(v@[k] == before[k]);
            }
            assert forall|k: int| ind + left <= k < ind + mid implies dataset.spec_pt(#[trigger] v@[k] as int, cutfeat as int) == cutval by {
                assert(v@[k] == before[k]);
            }
            assert forall|k: int| ind + right <= k < ind + count implies dataset.spec_pt(#[trigger] v@[k] as int, cutfeat as int) > cutval by {
                if k > ind + right {
                    assert(v@[k] == before[k]);
                } else {
                    assert(v@[k] == before[ind + mid]);
                }
            }
        } else {
            mid = mid + 1;
        }
    }
    (left, mid)
}

/// The smallest box around the points at the entries `[left, right)` of `v`.
fn range_bbox<D: KdTreeDataset>(dataset: &D, v: &Vec<usize>, left: usize, right: usize, dim: usize) -> (b: Vec<Interval>)
    requires
        left < right <= v@.len(),
        readable(dataset, v@, dim as nat),
    ensures
        tight_bbox(b@, v@, dataset, left as int, right as int, dim as nat),
{
    let first = v[left];
    let mut b: Vec<Interval> = Vec::new();
    let mut d: usize = 0;
    while d < dim
        invariant
            left < right <= v@.len(),
            readable(dataset, v@, dim as nat),
            first == v@[left as int],
            0 <= d <= dim,
            b@.len() == d,
            forall|dd: int| 0 <= dd < d ==> #[trigger] dim_tight(b@[dd], v@, dataset, left as int, left + 1, dd),
        decreases dim - d,
    {
        let x = dataset.kdtree_get_pt(first, d);
        b.push(Interval::new(x, x));
        assert(dim_tight(b@[d as int], v@, dataset, left as int, left + 1, d as int)) by {
            assert(dataset.spec_pt(v@[left as int] as int, d as int) == x);
        }
        d = d + 1;
    }
    let mut off: usize = left + 1;
    while off < right
        invariant
            left < off <= right <= v@.len(),
            readable(dataset, v@, dim as nat),
            tight_bbox(b@, v@, dataset, left as int, off as int, dim as nat),
        decreases right - off,
    {
        let idx = v[off];
        let mut d: usize = 0;
        while d < dim
            invariant
                left < off < right <= v@.len(),
                readable(dataset, v@, dim as nat),
                idx == v@[off as int],
                b@.len() == dim,
                0 <= d <= dim,
                forall|dd: int| 0 <= dd < d ==> #[trigger] dim_tight(b@[dd], v@, dataset, left as int, off + 1, dd),
                forall|dd: int| d <= dd < dim ==> #[trigger] dim_tight(b@[dd], v@, dataset, left as int, off as int, dd),
            decreases dim - d,
        {
            let x = dataset.kdtree_get_pt(idx, d);
            let cur = b[d];
            let mut nb = cur;
            if x < cur.low {
                nb.low = x;
            }
            if x > cur.high {
                nb.high = x;
            }
            let ghost old_b = b@;
            b[d] = nb;
            proof {
                assert(dim_tight(old_b[d as int], v@, dataset, left as int, off as int, d as int));
                let kl = choose|k: int| left <= k < off && #[trigger] dataset.spec_pt(v@[k] as int, d as int) == cur.low as int;
                let kh = choose|k: int| left <= k < off && #[trigger] dataset.spec_pt(v@[k] as int, d as int) == cur.high as int;
                assert(dataset.spec_pt(v@[off as int] as int, d as int) == x);
                if x < cur.low {
                    assert(attained(nb.low as int, v@, dataset, left as int, off + 1, d as int));
                } else {
                    assert(dataset.spec_pt(v@[kl] as int, d as int) == nb.low as int);
                    assert(attained(nb.low as int, v@, dataset, left as int, off + 1, d as int));
                }
                if x > cur.high {
                    assert(attained(nb.high as int, v@, dataset, left as int, off + 1, d as int));
                } else {
                    assert(dataset.spec_pt(v@[kh] as int, d as int) == nb.high as int);
                    assert(attained(nb.high as int, v@, dataset, left as int, off + 1, d as int));
                }
                assert(dim_tight(b@[d as int], v@, dataset, left as int, off + 1, d as int));
                assert forall|dd: int| 0 <= dd < d + 1 implies #[trigger] dim_tight(b@[dd], v@, dataset, left as int, off + 1, dd) by {
                    if dd < d {
                        assert(b@[dd] == old_b[dd]);
                    }
                }
                assert forall|dd: int| d + 1 <= dd < dim implies #[trigger] dim_tight(b@[dd], v@, dataset, left as int, off as int, dd) by {
                    assert(b@[dd] == old_b[dd]);
                }
            }
            d = d + 1;
        }
        off = off + 1;
    }
    b
}

/// A copy of a box.
fn copy_bbox(b: &Vec<Interval>) -> (r: Vec<Interval>)
    ensures
        r@ == b@,
{
    let mut r: Vec<Interval> = Vec::new();
    let mut i: usize = 0;
    while i < b.len()
        invariant
            0 <= i <= b@.len(),
            r@ == b@.take(i as int),
        decreases b@.len() - i,
    {
        r.push(b[i]);
        assert(b@.take(i + 1) =~= b@.take(i as int).push(b@[i as int]));
        i = i + 1;
    }
    assert(b@.take(b@.len() as int) =~= b@);
    r
}

/// The span `high - low` of an interval.
pub open spec fn span(iv: Interval) -> int {
    iv.high - iv.low
}

/// The largest span among the first `n` intervals of `b` (`n >= 1`).
pub open spec fn widest_span(b: Seq<Interval>, n: nat) -> int
    decreases n,
{
    if n <= 1 {
        span(b[0])
    } else {
        let m = widest_span(b, (n - 1) as nat);
        if span(b[n - 1]) > m {
            span(b[n - 1])
        } else {
            m
        }
    }
}

/// Dimension `d` of `b` is nearly the widest: its span is at least
/// `1 - 10^-5` times the largest span.
pub open spec fn wide_dim(b: Seq<Interval>, d: int) -> bool {
    100000 * span(b[d]) >= 99999 * widest_span(b, b.len())
}

/// The dimensions a split may cut: the nearly widest ones, or dimension 0
/// when none is.
pub open spec fn split_candidate(b: Seq<Interval>, d: int) -> bool {
    &&& 0 <= d < b.len()
    &&& wide_dim(b, d) || (d == 0 && forall|e: int| 0 <= e < b.len() ==> !#[trigger] wide_dim(b, e))
}

/// Any two points at the entries `[lo, hi)` of `v` differ by at most `s` in dimension `d`.
pub open spec fn spread_within<D: KdTreeDataset>(v: Seq<usize>, ds: &D, lo: int, hi: int, d: int, s: int) -> bool {
    forall|k1: int, k2: int|
        lo <= k1 < hi && lo <= k2 < hi ==> ds.spec_pt(#[trigger] v[k1] as int, d) - ds.spec_pt(#[trigger] v[k2] as int, d)
            <= s
}

/// Half of `s`, rounded toward zero.
pub open spec fn half_toward_zero(s: int) -> int {
    if s >= 0 {
        s / 2
    } else {
        -((-s) / 2)
    }
}

/// `x` moved into `[lo, hi]`, checking the lower bound first.
pub open spec fn clamp(x: int, lo: int, hi: int) -> int {
    if x < lo {
        lo
    } else if x > hi {
        hi
    } else {
        x
    }
}

/// Where a split of `count` entries falls, given that `lim1` of them lie
/// below the cut value and `lim2` at or below it: past the lower ones if
/// they are more than half, before the higher ones if those are more than
/// half, else in the middle.
pub open spec fn split_index(lim1: int, lim2: int, count: int) -> int {
    if lim1 > count / 2 {
        lim1
    } else if lim2 < count / 2 {
        lim2
    } else {
        count / 2
    }
}

/// The cut of a split of the entries `[lo, hi)` of `v`: `cutfeat` is a
/// candidate dimension of `b` where the points spread most, the first such;
/// `cutval` is the middle of `b` there, clamped to the points' range.
pub open spec fn cut_rule<D: KdTreeDataset>(b: Seq<Interval>, v: Seq<usize>, ds: &D, lo: int, hi: int, cutfeat: int, cutval: int) -> bool {
    &&& split_candidate(b, cutfeat)
    &&& exists|mn: i32, mx: i32|
        #[trigger] dim_tight(Interval { low: mn, high: mx }, v, ds, lo, hi, cutfeat) && {
            &&& cutval == clamp(half_toward_zero(b[cutfeat].low + b[cutfeat].high), mn as int, mx as int)
            &&& forall|d: int| #[trigger] split_candidate(b, d) ==> spread_within(v, ds, lo, hi, d, mx - mn)
            &&& forall|d: int| 0 <= d < cutfeat && #[trigger] split_candidate(b, d) ==> spread_within(v, ds, lo, hi, d, mx - mn - 1)
        }
}

/// The entries `[lo, lo + count)` of `v` hold first the points below `cutval`
/// in dimension `cutfeat`, then those equal to it, then those above, and
/// `index` is the `split_index` of those counts.
pub open spec fn index_rule<D: KdTreeDataset>(v: Seq<usize>, ds: &D, lo: int, count: int, cutfeat: int, cutval: int, index: int) -> bool {
    exists|lim1: int, lim2: int|
        0 <= lim1 <= lim2 <= count && index == #[trigger] split_index(lim1, lim2, count) && (forall|k: int|
            lo <= k < lo + lim1 ==> ds.spec_pt(#[trigger] v[k] as int, cutfeat) < cutval) && (forall|k: int|
            lo + lim1 <= k < lo + lim2 ==> ds.spec_pt(#[trigger] v[k] as int, cutfeat) == cutval) && (forall|k: int|
            lo + lim2 <= k < lo + count ==> ds.spec_pt(#[trigger] v[k] as int, cutfeat) > cutval)
}

/// Chooses a split of the entries `[ind, ind + count)`: among the nearly
/// widest dimensions of `bbox`, the first where the points spread most; the
/// middle of `bbox` there, clamped to the points' range; and the position
/// `split_index` of the counts below and at most that value. Rearranges the
/// entries so that those below the value come first, then those equal to it.
#[verifier::spinoff_prover]
#[verifier::rlimit(40)]
fn middle_split<D: KdTreeDataset>(dataset: &D, v: &mut Vec<usize>, dim: usize, ind: usize, count: usize, bbox: &Vec<Interval>) -> (res: Result<(usize, usize, i32)>)
    requires
        1 <= count,
        ind + count <= old(v)@.len(),
        readable(dataset, old(v)@, dim as nat),
        bbox@.len() == dim,
        1 <= dim,
    ensures
        range_perm(old(v)@, final(v)@, ind as int, ind + count),
        all_below(final(v)@, dataset.spec_point_count()),
        match res {
            Ok((index, cutfeat, cutval)) => {
                &&& 0 < index < count
                &&& cutfeat < dim
                &&& forall|k: int| ind <= k < ind + index ==> dataset.spec_pt(#[trigger] final(v)@[k] as int, cutfeat as int) <= cutval
                &&& forall|k: int| ind + index <= k < ind + count ==> dataset.spec_pt(#[trigger] final(v)@[k] as int, cutfeat as int) >= cutval
                &&& split_candidate(bbox@, cutfeat as int)
            },
            Err(e) => count < 2 && e == KdTreeError::InvalidBoundingBox(BoundingBoxProblem::SplitFailed),
        },
        res matches Ok((index, cutfeat, cutval)) ==> cut_rule(bbox@, old(v)@, dataset, ind as int, ind + count, cutfeat as int, cutval as int),
        res matches Ok((index, cutfeat, cutval)) ==> index_rule(final(v)@, dataset, ind as int, count as int, cutfeat as int, cutval as int, index as int),
        count >= 2 ==> res is Ok,
{
    let ghost v0 = v@;
    let ghost b = bbox@;
    let _len = v.len();
    let mut max_span: i64 = bbox[0].high as i64 - bbox[0].low as i64;
    let mut d: usize = 1;
    while d < dim
        invariant
            1 <= d <= dim,
            bbox@.len() == dim,
            max_span == widest_span(bbox@, d as nat),
            -0x1_0000_0000 <= max_span <= 0x1_0000_0000,
        decreases dim - d,
    {
        let span: i64 = bbox[d].high as i64 - bbox[d].low as i64;
        if span > max_span {
            max_span = span;
        }
        d = d + 1;
    }
    let mut candidates: Vec<usize> = Vec::new();
    let mut d: usize = 0;
    while d < dim
        invariant
            0 <= d <= dim,
            bbox@.len() == dim,
            max_span == widest_span(bbox@, dim as nat),
            -0x1_0000_0000 <= max_span <= 0x1_0000_0000,
            forall|c: int| 0 <= c < candidates@.len() ==> #[trigger] candidates@[c] < d,
            forall|c: int| 0 <= c < candidates@.len() ==> wide_dim(bbox@, #[trigger] candidates@[c] as int),
            forall|c1: int, c2: int| 0 <= c1 < c2 < candidates@.len() ==> #[trigger] candidates@[c1] < #[trigger] candidates@[c2],
            forall|e: int| 0 <= e < d && #[trigger] wide_dim(bbox@, e) ==> exists|c: int| 0 <= c < candidates@.len() && candidates@[c] == e,
        decreases dim - d,
    {
        let span: i64 = bbox[d].high as i64 - bbox[d].low as i64;
        // `span >= (1 - 0.00001) * max_span`, scaled to integers.
        let ghost old_c = candidates@;
        if 100000 * span >= 99999 * max_span {
            candidates.push(d);
            proof {
                assert(candidates@[candidates@.len() - 1] == d);
            }
        }
        proof {
            assert forall|e: int| 0 <= e < d + 1 && #[trigger] wide_dim(bbox@, e) implies exists|c: int|
                0 <= c < candidates@.len() && candidates@[c] == e by {
                if e == d {
                    assert(candidates@[candidates@.len() - 1] == d);
                } else {
                    let c = choose|c: int| 0 <= c < old_c.len() && old_c[c] == e;
                    assert(candidates@[c] == old_c[c]);
                }
            }
        }
        d = d + 1;
    }
    if candidates.len() == 0 {
        candidates.push(0);
        proof {
            assert forall|e: int| 0 <= e < dim implies !#[trigger] wide_dim(bbox@, e) by {
                if wide_dim(bbox@, e) {
                    let c = choose|c: int| 0 <= c < 0 && candidates@[c] == e;
                }
            }
        }
    }
    proof {
        assert forall|e: int| #[trigger] split_candidate(bbox@, e) implies exists|c: int|
            0 <= c < candidates@.len() && candidates@[c] == e by {
            if wide_dim(bbox@, e) {
            } else {
                assert(candidates@[0] == 0);
            }
        }
        assert forall|c: int| 0 <= c < candidates@.len() implies #[trigger] split_candidate(bbox@, candidates@[c] as int) by {}
    }
    let mut cutfeat: usize = 0;
    let mut max_spread: i64 = -1;
    let mut min_elem: i32 = 0;
    let mut max_elem: i32 = 0;
    let ghost mut best: int = 0;
    let mut c: usize = 0;
    while c < candidates.len()
        invariant
            1 <= count,
            ind + count <= v@.len(),
            v0.len() <= usize::MAX,
            v@ == v0,
            b == bbox@,
            readable(dataset, v0, dim as nat),
            1 <= candidates@.len(),
            forall|c: int| 0 <= c < candidates@.len() ==> #[trigger] candidates@[c] < dim,
            forall|c: int| 0 <= c < candidates@.len() ==> #[trigger] split_candidate(bbox@, candidates@[c] as int),
            forall|c1: int, c2: int| 0 <= c1 < c2 < candidates@.len() ==> #[trigger] candidates@[c1] < #[trigger] candidates@[c2],
            0 <= c <= candidates@.len(),
            c > 0 ==> max_spread >= 0,
            max_spread >= 0 ==> {
                &&& 0 <= best < c
                &&& cutfeat == candidates@[best]
                &&& cutfeat < dim
                &&& max_spread == max_elem - min_elem
                &&& dim_tight(Interval { low: min_elem, high: max_elem }, v0, dataset, ind as int, ind + count, cutfeat as int)
            },
            forall|i: int| 0 <= i < c ==> spread_within(v0, dataset, ind as int, ind + count, #[trigger] candidates@[i] as int, max_spread as int),
            forall|i: int|
                0 <= i < c && #[trigger] candidates@[i] < cutfeat ==> spread_within(
                    v0,
                    dataset,
                    ind as int,
                    ind + count,
                    candidates@[i] as int,
                    max_spread - 1,
                ),
            max_spread >= -1,
            c == 0 ==> cutfeat == 0,
        decreases candidates@.len() - c,
    {
        let d = candidates[c];
        let first = dataset.kdtree_get_pt(v[ind], d);
        let mut local_min = first;
        let mut local_max = first;
        assert(dataset.spec_pt(v0[ind as int] as int, d as int) == first);
        let mut k: usize = 1;
        while k < count
            invariant
                1 <= k <= count,
                ind + count <= v@.len(),
                v0.len() <= usize::MAX,
                v@ == v0,
                readable(dataset, v0, dim as nat),
                d < dim,
                local_min <= local_max,
                attained(local_min as int, v0, dataset, ind as int, ind + count, d as int),
                attained(local_max as int, v0, dataset, ind as int, ind + count, d as int),
                forall|j: int| ind <= j < ind + k ==> local_min <= #[trigger] dataset.spec_pt(v0[j] as int, d as int) <= local_max,
            decreases count - k,
        {
            let value = dataset.kdtree_get_pt(v[ind + k], d);
            assert(dataset.spec_pt(v0[ind + k] as int, d as int) == value);
            if value < local_min {
                local_min = value;
            }
            if value > local_max {
                local_max = value;
            }
            k = k + 1;
        }
        let spread: i64 = local_max as i64 - local_min as i64;
        proof {
            assert forall|k1: int, k2: int| ind <= k1 < ind + count && ind <= k2 < ind + count implies dataset.spec_pt(
                #[trigger] v0[k1] as int,
                d as int,
            ) - dataset.spec_pt(#[trigger] v0[k2] as int, d as int) <= spread by {
                assert(local_min <= dataset.spec_pt(v0[k1] as int, d as int) <= local_max);
                assert(local_min <= dataset.spec_pt(v0[k2] as int, d as int) <= local_max);
            }
            assert(spread_within(v0, dataset, ind as int, ind + count, d as int, spread as int));
        }
        let ghost old_spread = max_spread;
        let ghost old_cutfeat = cutfeat;
        if spread > max_spread {
            cutfeat = d;
            max_spread = spread;
            min_elem = local_min;
            max_elem = local_max;
            proof {
                best = c as int;
                assert(dim_tight(Interval { low: min_elem, high: max_elem }, v0, dataset, ind as int, ind + count, cutfeat as int));
            }
        }
        proof {
            assert forall|i: int| 0 <= i < c + 1 implies spread_within(
                v0,
                dataset,
                ind as int,
                ind + count,
                #[trigger] candidates@[i] as int,
                max_spread as int,
            ) by {
                if i < c {
                    assert(spread_within(v0, dataset, ind as int, ind + count, candidates@[i] as int, old_spread as int));
                    assert forall|k1: int, k2: int| ind <= k1 < ind + count && ind <= k2 < ind + count implies dataset.spec_pt(
                        #[trigger] v0[k1] as int,
                        candidates@[i] as int,
                    ) - dataset.spec_pt(#[trigger] v0[k2] as int, candidates@[i] as int) <= max_spread by {}
                }
            }
            assert forall|i: int| 0 <= i < c + 1 && #[trigger] candidates@[i] < cutfeat implies spread_within(
                v0,
                dataset,
                ind as int,
                ind + count,
                candidates@[i] as int,
                max_spread - 1,
            ) by {
                if spread > old_spread {
                    assert(i < c);
                    assert(spread_within(v0, dataset, ind as int, ind + count, candidates@[i] as int, old_spread as int));
                    assert forall|k1: int, k2: int| ind <= k1 < ind + count && ind <= k2 < ind + count implies dataset.spec_pt(
                        #[trigger] v0[k1] as int,
                        candidates@[i] as int,
                    ) - dataset.spec_pt(#[trigger] v0[k2] as int, candidates@[i] as int) <= max_spread - 1 by {}
                } else {
                    if i == c {
                        assert(candidates@[best] < candidates@[c as int]);
                    }
                }
            }
        }
        c = c + 1;
    }
    let sum: i64 = bbox[cutfeat].low as i64 + bbox[cutfeat].high as i64;
    let mut cutval: i64 = if sum >= 0 { sum / 2 } else { -((-sum) / 2) };
    if cutval < min_elem as i64 {
        cutval = min_elem as i64;
    }
    if cutval > max_elem as i64 {
        cutval = max_elem as i64;
    }
    let cutval: i32 = cutval as i32;
    proof {
        assert(split_candidate(bbox@, cutfeat as int));
        assert forall|e: int| #[trigger] split_candidate(bbox@, e) implies spread_within(
            v0,
            dataset,
            ind as int,
            ind + count,
            e,
            max_elem - min_elem,
        ) by {
            let i = choose|i: int| 0 <= i < candidates@.len() && candidates@[i] == e;
            assert(spread_within(v0, dataset, ind as int, ind + count, candidates@[i] as int, max_spread as int));
        }
        assert forall|e: int| 0 <= e < cutfeat && #[trigger] split_candidate(bbox@, e) implies spread_within(
            v0,
            dataset,
            ind as int,
            ind + count,
            e,
            max_elem - min_elem - 1,
        ) by {
            let i = choose|i: int| 0 <= i < candidates@.len() && candidates@[i] == e;
            assert(candidates@[i] < cutfeat);
        }
        assert(dim_tight(Interval { low: min_elem, high: max_elem }, v0, dataset, ind as int, ind + count, cutfeat as int));
    }
    let (lim1, lim2) = plane_split(dataset, v, ind, count, cutfeat, cutval);
    proof {
        let kmax = choose|k: int| ind <= k < ind + count && #[trigger] dataset.spec_pt(v0[k] as int, cutfeat as int) == max_elem as int;
        let jmax = lemma_range_perm_to(v0, v@, ind as int, ind + count, kmax);
        assert(dataset.spec_pt(v@[jmax] as int, cutfeat as int) >= cutval);
        assert(lim1 < count);
        let kmin = choose|k: int| ind <= k < ind + count && #[trigger] dataset.spec_pt(v0[k] as int, cutfeat as int) == min_elem as int;
        let jmin = lemma_range_perm_to(v0, v@, ind as int, ind + count, kmin);
        assert(dataset.spec_pt(v@[jmin] as int, cutfeat as int) <= cutval);
        assert(lim2 >= 1);
    }
    let half = count / 2;
    let index = if lim1 > half {
        lim1
    } else if lim2 < half {
        lim2
    } else {
        half
    };
    if index == 0 || index >= count {
        return Err(KdTreeError::InvalidBoundingBox(BoundingBoxProblem::SplitFailed));
    }
    proof {
        assert(index == split_index(lim1 as int, lim2 as int, count as int));
        assert(cutval == clamp(half_toward_zero(bbox@[cutfeat as int].low + bbox@[cutfeat as int].high), min_elem as int, max_elem as int));
        assert(dim_tight(Interval { low: min_elem, high: max_elem }, old(v)@, dataset, ind as int, ind + count, cutfeat as int));
        assert(cut_rule(bbox@, old(v)@, dataset, ind as int, ind + count, cutfeat as int, cutval as int));
        assert(index_rule(v@, dataset, ind as int, count as int, cutfeat as int, cutval as int, index as int));
    }
    Ok((index, cutfeat, cutval))
}

/// Builds the subtree over the entries `[left, right)`: a leaf when they are
/// at most `leaf_max_size`, else a split by `middle_split` with both halves
/// built recursively. Leaves in `bbox` the smallest box around the range's
/// points. Fails only when `leaf_max_size` is zero.
fn divide_tree<D: KdTreeDataset>(
    dataset: &D,
    v: &mut Vec<usize>,
    dim: usize,
    leaf_max_size: usize,
    left: usize,
    right: usize,
    bbox: &mut Vec<Interval>,
) -> (res: Result<Box<Node>>)
    requires
        left < right <= old(v)@.len(),
        readable(dataset, old(v)@, dim as nat),
        1 <= dim,
        old(bbox)@.len() == dim,
    ensures
        range_perm(old(v)@, final(v)@, left as int, right as int),
        all_below(final(v)@, dataset.spec_point_count()),
        final(bbox)@.len() == dim,
        match res {
            Ok(node) => {
                &&& node_wf(*node, final(v)@, dataset, dim as nat)
                &&& node_lo(*node) == left
                &&& node_hi(*node) == right
                &&& tight_bbox(final(bbox)@, final(v)@, dataset, left as int, right as int, dim as nat)
                &&& node_shape(*node, final(v)@, dataset, leaf_max_size as nat)
            },
            Err(e) => leaf_max_size == 0 && e == KdTreeError::InvalidBoundingBox(BoundingBoxProblem::SplitFailed),
        },
        leaf_max_size > 0 ==> res is Ok,
        leaf_max_size == 0 ==> res is Err,
    decreases right - left,
{
    let ghost v0 = v@;
    let count = right - left;
    if count <= leaf_max_size {
        let b = range_bbox(dataset, v, left, right, dim);
        *bbox = b;
        proof { lemma_range_perm_refl(v0, left as int, right as int); }
        return Ok(Box::new(Node::Leaf { left, right }));
    }
    let split = middle_split(dataset, v, dim, left, count, bbox);
    let (index, cutfeat, cutval) = match split {
        Ok(t) => t,
        Err(e) => {
            return Err(e);
        },
    };
    let mid = left + index;
    let ghost v_ms = v@;
    let mut left_bbox = copy_bbox(bbox);
    let mut iv = left_bbox[cutfeat];
    iv.high = cutval;
    left_bbox[cutfeat] = iv;
    let child1 = match divide_tree(dataset, v, dim, leaf_max_size, left, mid, &mut left_bbox) {
        Ok(n) => n,
        Err(e) => {
            proof {
                lemma_range_perm_widen(v_ms, v@, left as int, mid as int, left as int, right as int);
                lemma_range_perm_trans(v0, v_ms, v@, left as int, right as int);
            }
            return Err(e);
        },
    };
    let ghost v1 = v@;
    let mut right_bbox = copy_bbox(bbox);
    let mut iv = right_bbox[cutfeat];
    iv.low = cutval;
    right_bbox[cutfeat] = iv;
    let child2 = match divide_tree(dataset, v, dim, leaf_max_size, mid, right, &mut right_bbox) {
        Ok(n) => n,
        Err(e) => {
            proof {
                lemma_range_perm_join(v_ms, v1, v@, left as int, mid as int, right as int);
                lemma_range_perm_trans(v0, v_ms, v@, left as int, right as int);
            }
            return Err(e);
        },
    };
    let ghost v2 = v@;
    let divlow = left_bbox[cutfeat].high;
    let divhigh = right_bbox[cutfeat].low;
    proof {
        lemma_range_perm_join(v_ms, v1, v2, left as int, mid as int, right as int);
        lemma_range_perm_trans(v0, v_ms, v2, left as int, right as int);
        // child1 and its box are untouched by the second recursion
        assert forall|k: int| left <= k < mid implies #[trigger] v1[k] == v2[k] by {}
        lemma_node_wf_frame(*child1, v1, v2, dataset, dim as nat);
        lemma_node_shape_frame(*child1, v1, v2, dataset, dim as nat, leaf_max_size as nat);
        lemma_tight_frame(left_bbox@, v1, v2, dataset, left as int, mid as int, dim as nat);
        // the halves lie on their sides of cutval
        assert forall|k: int| left <= k < mid implies dataset.spec_pt(#[trigger] v2[k] as int, cutfeat as int) <= cutval by {
            let j = lemma_range_perm_from(v_ms, v1, left as int, mid as int, k);
            assert(v2[k] == v1[k]);
            assert(dataset.spec_pt(v_ms[j] as int, cutfeat as int) <= cutval);
        }
        assert forall|k: int| mid <= k < right implies dataset.spec_pt(#[trigger] v2[k] as int, cutfeat as int) >= cutval by {
            let j = lemma_range_perm_from(v1, v2, mid as int, right as int, k);
            assert(v1[j] == v_ms[j]);
            assert(dataset.spec_pt(v_ms[j] as int, cutfeat as int) >= cutval);
        }
        assert(dim_tight(left_bbox@[cutfeat as int], v2, dataset, left as int, mid as int, cutfeat as int));
        assert(dim_tight(right_bbox@[cutfeat as int], v2, dataset, mid as int, right as int, cutfeat as int));
        let kl = choose|k: int| left <= k < mid && #[trigger] dataset.spec_pt(v2[k] as int, cutfeat as int) == divlow as int;
        let kh = choose|k: int| mid <= k < right && #[trigger] dataset.spec_pt(v2[k] as int, cutfeat as int) == divhigh as int;
        assert(attained(divlow as int, v2, dataset, node_lo(*child1), node_hi(*child1), cutfeat as int));
        assert(attained(divhigh as int, v2, dataset, node_lo(*child2), node_hi(*child2), cutfeat as int));
        assert(divlow <= divhigh);
        lemma_tight_contains(left_bbox@, v2, dataset, left as int, mid as int, dim as nat);
        lemma_tight_contains(right_bbox@, v2, dataset, mid as int, right as int, dim as nat);
        assert forall|k: int| node_lo(*child1) <= k < node_hi(*child1) implies dataset.spec_pt(#[trigger] v2[k] as int, cutfeat as int) <= divlow by {
            assert(dim_contains(left_bbox@[cutfeat as int], v2, dataset, left as int, mid as int, cutfeat as int));
        }
        assert forall|k: int| node_lo(*child2) <= k < node_hi(*child2) implies dataset.spec_pt(#[trigger] v2[k] as int, cutfeat as int) >= divhigh by {
            assert(dim_contains(right_bbox@[cutfeat as int], v2, dataset, mid as int, right as int, cutfeat as int));
        }
    }
    let mut d: usize = 0;
    while d < dim
        invariant
            v@ == v2,
            left < mid < right,
            bbox@.len() == dim,
            left_bbox@.len() == dim,
            right_bbox@.len() == dim,
            tight_bbox(left_bbox@, v2, dataset, left as int, mid as int, dim as nat),
            tight_bbox(right_bbox@, v2, dataset, mid as int, right as int, dim as nat),
            0 <= d <= dim,
            forall|dd: int| 0 <= dd < d ==> #[trigger] dim_tight(bbox@[dd], v2, dataset, left as int, right as int, dd),
        decreases dim - d,
    {
        let l = left_bbox[d];
        let r = right_bbox[d];
        let low = if l.low < r.low { l.low } else { r.low };
        let high = if l.high > r.high { l.high } else { r.high };
        let ghost old_b = bbox@;
        bbox[d] = Interval::new(low, high);
        proof {
            assert(dim_tight(l, v2, dataset, left as int, mid as int, d as int));
            assert(dim_tight(r, v2, dataset, mid as int, right as int, d as int));
            assert forall|k: int| left <= k < right implies low <= #[trigger] dataset.spec_pt(v2[k] as int, d as int) <= high by {
                if k < mid {
                    assert(l.low <= dataset.spec_pt(v2[k] as int, d as int) <= l.high);
                } else {
                    assert(r.low <= dataset.spec_pt(v2[k] as int, d as int) <= r.high);
                }
            }
            if l.low < r.low {
                let k = choose|k: int| left <= k < mid && #[trigger] dataset.spec_pt(v2[k] as int, d as int) == l.low as int;
                assert(attained(low as int, v2, dataset, left as int, right as int, d as int));
            } else {
                let k = choose|k: int| mid <= k < right && #[trigger] dataset.spec_pt(v2[k] as int, d as int) == r.low as int;
                assert(attained(low as int, v2, dataset, left as int, right as int, d as int));
            }
            if l.high > r.high {
                let k = choose|k: int| left <= k < mid && #[trigger] dataset.spec_pt(v2[k] as int, d as int) == l.high as int;
                assert(attained(high as int, v2, dataset, left as int, right as int, d as int));
            } else {
                let k = choose|k: int| mid <= k < right && #[trigger] dataset.spec_pt(v2[k] as int, d as int) == r.high as int;
                assert(attained(high as int, v2, dataset, left as int, right as int, d as int));
            }
            assert(dim_tight(bbox@[d as int], v2, dataset, left as int, right as int, d as int));
            assert forall|dd: int| 0 <= dd < d + 1 implies #[trigger] dim_tight(bbox@[dd], v2, dataset, left as int, right as int, dd) by {
                if dd < d {
                    assert(bbox@[dd] == old_b[dd]);
                }
            }
        }
        d = d + 1;
    }
    Ok(Box::new(Node::Split { divfeat: cutfeat, divlow, divhigh, child1, child2 }))
}

/// Search options.
#[derive(Clone, Copy, Debug, PartialEq, Eq, Structural)]
pub struct SearchParameters {
    /// Approximation for pruning: a subtree is skipped once `(1 + eps)` times
    /// its lower bound exceeds the worst distance. `0` prunes exactly.
    pub eps: u32,
    /// Whether radius-style results should be sorted by ascending distance.
    pub sorted: bool,
}

impl Default for SearchParameters {
    fn default() -> (r: Self)
        ensures
            r.eps == 0,
            r.sorted,
    {
        SearchParameters { eps: 0, sorted: true }
    }
}

/// KD-tree build parameters.
#[derive(Clone, Copy, Debug, PartialEq, Eq, Structural)]
pub struct KdTreeParams {
    /// Maximum number of points in a leaf node. Default: 10.
    pub leaf_max_size: usize,
    /// Construct the object without immediately building the index.
    pub skip_initial_build: bool,
    /// Number of build threads; the index is built on one thread.
    pub n_thread_build: usize,
    /// Order equal distances by smaller index.
    pub first_match: bool,
}

impl Default for KdTreeParams {
    fn default() -> (r: Self)
        ensures
            r.leaf_max_size == 10,
            !r.skip_initial_build,
            r.n_thread_build == 1,
            !r.first_match,
    {
        KdTreeParams { leaf_max_size: 10, skip_initial_build: false, n_thread_build: 1, first_match: false }
    }
}

/// A box of `dim` intervals `[0, 0]`.
pub open spec fn zero_bbox(dim: nat) -> Seq<Interval> {
    Seq::new(dim, |i: int| Interval { low: 0, high: 0 })
}

/// The first dimension, from `i` on, whose interval has `high < low`.
pub open spec fn first_inverted(b: Seq<Interval>, i: nat) -> Option<nat>
    decreases b.len() - i,
{
    if i >= b.len() {
        None
    } else if b[i as int].high < b[i as int].low {
        Some(i)
    } else {
        first_inverted(b, i + 1)
    }
}

/// What is wrong with a box of `dim` dimensions, if anything: the wrong number
/// of intervals, or the first interval with `high < low`.
pub open spec fn bbox_shape_error(b: Seq<Interval>, dim: nat) -> Option<KdTreeError> {
    if b.len() != dim {
        Some(KdTreeError::BoundingBoxDimensionalityMismatch { expected: dim as usize, got: b.len() as usize })
    } else {
        match first_inverted(b, 0) {
            Some(i) => Some(KdTreeError::InvalidBoundingBox(BoundingBoxProblem::HighBelowLow { dimension: i as usize })),
            None => None,
        }
    }
}

proof fn lemma_first_inverted_none(b: Seq<Interval>, i: nat)
    requires
        first_inverted(b, i) is None,
    ensures
        forall|d: int| i <= d < b.len() ==> (#[trigger] b[d]).low <= b[d].high,
    decreases b.len() - i,
{
    if i < b.len() {
        lemma_first_inverted_none(b, i + 1);
    }
}

/// Checks that a box has `dim` intervals, none with `high < low`.
pub fn validate_bbox_shape(dim: usize, bbox: &[Interval]) -> (r: Result<()>)
    ensures
        r is Ok <==> bbox_shape_error(bbox@, dim as nat) is None,
        r matches Err(e) ==> bbox_shape_error(bbox@, dim as nat) == Some(e),
        r is Ok ==> forall|d: int| 0 <= d < dim ==> (#[trigger] bbox@[d]).low <= bbox@[d].high,
{
    if bbox.len() != dim {
        return Err(KdTreeError::BoundingBoxDimensionalityMismatch { expected: dim, got: bbox.len() });
    }
    let mut i: usize = 0;
    while i < bbox.len()
        invariant
            0 <= i <= bbox@.len(),
            bbox@.len() == dim,
            first_inverted(bbox@, 0) == first_inverted(bbox@, i as nat),
            forall|d: int| 0 <= d < i ==> (#[trigger] bbox@[d]).low <= bbox@[d].high,
        decreases bbox@.len() - i,
    {
        if bbox[i].high < bbox[i].low {
            return Err(KdTreeError::InvalidBoundingBox(BoundingBoxProblem::HighBelowLow { dimension: i }));
        }
        i = i + 1;
    }
    Ok(())
}

/// A box of `dim` intervals `[0, 0]`.
fn zeros_bbox(dim: usize) -> (r: Vec<Interval>)
    ensures
        r@ == zero_bbox(dim as nat),
{
    let mut r: Vec<Interval> = Vec::new();
    let mut i: usize = 0;
    while i < dim
        invariant
            0 <= i <= dim,
            r@ == zero_bbox(i as nat),
        decreases dim - i,
    {
        r.push(Interval::zero());
        assert(r@ =~= zero_bbox((i + 1) as nat));
        i = i + 1;
    }
    r
}

/// The identity permutation `[0, n)`.
pub open spec fn identity(n: nat) -> Seq<usize> {
    Seq::new(n, |i: int| i as usize)
}

/// The entries `0, 1, ..., n - 1`.
fn init_vind(n: usize) -> (r: Vec<usize>)
    ensures
        r@ == identity(n as nat),
{
    let mut r: Vec<usize> = Vec::new();
    let mut i: usize = 0;
    while i < n
        invariant
            0 <= i <= n,
            r@ == identity(i as nat),
        decreases n - i,
    {
        r.push(i);
        assert(r@ =~= identity((i + 1) as nat));
        i = i + 1;
    }
    r
}

/// The first entry of `v`, from `i` on, that is not below `n`.
pub open spec fn first_out_of_bounds(v: Seq<usize>, n: nat, i: nat) -> Option<nat>
    decreases v.len() - i,
{
    if i >= v.len() {
        None
    } else if v[i as int] >= n {
        Some(i)
    } else {
        first_out_of_bounds(v, n, i + 1)
    }
}

/// Permuting all entries keeps the set of indexed points.
pub proof fn lemma_range_perm_same_set(a: Seq<usize>, b: Seq<usize>)
    requires
        range_perm(a, b, 0, a.len() as int),
    ensures
        range_set(b, 0, b.len() as int) == range_set(a, 0, a.len() as int),
{
    assert forall|c: int| #[trigger] range_set(b, 0, b.len() as int).contains(c) implies range_set(a, 0, a.len() as int).contains(c) by {
        let k = choose|k: int| 0 <= k < b.len() && b[k] as int == c;
        let j = lemma_range_perm_from(a, b, 0, a.len() as int, k);
    }
    assert forall|c: int| #[trigger] range_set(a, 0, a.len() as int).contains(c) implies range_set(b, 0, b.len() as int).contains(c) by {
        let k = choose|k: int| 0 <= k < a.len() && a[k] as int == c;
        let j = lemma_range_perm_to(a, b, 0, a.len() as int, k);
    }
    assert(range_set(b, 0, b.len() as int) =~= range_set(a, 0, a.len() as int));
}

/// A permutation keeps the absence of repeated entries.
pub proof fn lemma_range_perm_no_dup(a: Seq<usize>, b: Seq<usize>, lo: int, hi: int)
    requires
        range_perm(a, b, lo, hi),
        a.no_duplicates(),
    ensures
        b.no_duplicates(),
{
    lemma_range_perm_multiset(a, b, lo, hi);
    a.lemma_multiset_has_no_duplicates();
    assert forall|x: usize| b.to_multiset().contains(x) implies b.to_multiset().count(x) == 1 by {
        assert(a.to_multiset().contains(x));
    }
    b.lemma_multiset_has_no_duplicates_conv();
}

/// Checks that every entry of `v` is a point of the dataset; fails with the
/// first one that is not.
pub fn validate_entries<D: KdTreeDataset>(v: &Vec<usize>, dataset: &D) -> (r: Result<()>)
    ensures
        r is Ok <==> all_below(v@, dataset.spec_point_count()),
        r matches Err(e) ==> (first_out_of_bounds(v@, dataset.spec_point_count(), 0) matches Some(k) && e
            == (KdTreeError::IndexOutOfBounds { index: v@[k as int], len: dataset.spec_point_count() as usize })),
        r matches Err(KdTreeError::IndexOutOfBounds { index, len }) ==> len == dataset.spec_point_count() && index >= len,
{
    let len = dataset.kdtree_get_point_count();
    let mut i: usize = 0;
    while i < v.len()
        invariant
            0 <= i <= v@.len(),
            len == dataset.spec_point_count(),
            first_out_of_bounds(v@, len as nat, 0) == first_out_of_bounds(v@, len as nat, i as nat),
            forall|k: int| 0 <= k < i ==> (#[trigger] v@[k]) < len,
        decreases v@.len() - i,
    {
        let idx = v[i];
        if idx >= len {
            return Err(KdTreeError::IndexOutOfBounds { index: idx, len });
        }
        i = i + 1;
    }
    Ok(())
}

/// With no interval `high < low` from `i` on, none is found.
pub proof fn lemma_no_inverted(b: Seq<Interval>, i: nat)
    requires
        forall|d: int| i <= d < b.len() ==> (#[trigger] b[d]).low <= b[d].high,
    ensures
        first_inverted(b, i) is None,
    decreases b.len() - i,
{
    if i < b.len() {
        lemma_no_inverted(b, i + 1);
    }
}

/// The structure of a static KD-tree index over some points of a dataset: a
/// permutation of point indices, the node tree over it, and the bounding box of
/// the indexed points.
pub struct KdTreeIndex {
    pub v_acc: Vec<usize>,
    pub root_node: Option<Box<Node>>,
    pub root_bbox: Vec<Interval>,
    pub size: usize,
    pub size_at_index_build: usize,
}

impl KdTreeIndex {
    /// The index is consistent with the points of `ds` in `dim` dimensions:
    /// entries are distinct readable points, and a root node covers all entries
    /// with the box around them.
    pub open spec fn wf<D: KdTreeDataset>(&self, ds: &D, dim: nat) -> bool {
        &&& self.v_acc@.no_duplicates()
        &&& readable(ds, self.v_acc@, dim)
        &&& self.root_bbox@.len() == dim
        &&& forall|d: int| 0 <= d < dim ==> (#[trigger] self.root_bbox@[d]).low <= self.root_bbox@[d].high
        &&& self.root_node matches Some(root) ==> {
            &&& node_wf(*root, self.v_acc@, ds, dim)
            &&& node_lo(*root) == 0
            &&& node_hi(*root) == self.v_acc@.len()
            &&& bbox_contains(self.root_bbox@, self.v_acc@, ds, 0, self.v_acc@.len() as int, dim)
        }
    }

    /// The points that the index holds.
    pub open spec fn indexed(&self) -> Set<int> {
        range_set(self.v_acc@, 0, self.v_acc@.len() as int)
    }

    /// An unbuilt index of no entries that reports `size` points.
    pub fn unbuilt(size: usize, dim: usize) -> (r: Self)
        ensures
            r.v_acc@ == Seq::<usize>::empty(),
            r.root_node is None,
            r.root_bbox@ == zero_bbox(dim as nat),
            r.size == size,
            r.size_at_index_build == 0,
    {
        KdTreeIndex { v_acc: Vec::new(), root_node: None, root_bbox: zeros_bbox(dim), size, size_at_index_build: 0 }
    }

    /// The box that seeds the division: the dataset's own, checked, or else the
    /// box around the entries.
    fn compute_bounding_box<D: KdTreeDataset>(&self, dataset: &D, dim: usize) -> (r: Result<Vec<Interval>>)
        requires
            readable(dataset, self.v_acc@, dim as nat),
        ensures
            match dataset.spec_bbox() {
                Some(b) => match bbox_shape_error(b, dim as nat) {
                    Some(e) => r == Err::<Vec<Interval>, KdTreeError>(e),
                    None => r matches Ok(x) && x@ == b,
                },
                None => if self.v_acc@.len() == 0 {
                    r == Err::<Vec<Interval>, KdTreeError>(KdTreeError::InvalidBoundingBox(BoundingBoxProblem::EmptyIndex))
                } else {
                    r matches Ok(x) && tight_bbox(x@, self.v_acc@, dataset, 0, self.v_acc@.len() as int, dim as nat)
                },
            },
    {
        let mut bbox = zeros_bbox(dim);
        if dataset.kdtree_get_bbox(&mut bbox) {
            match validate_bbox_shape(dim, bbox.as_slice()) {
                Ok(()) => {},
                Err(e) => {
                    return Err(e);
                },
            }
            return Ok(bbox);
        }
        if self.v_acc.len() == 0 {
            return Err(KdTreeError::InvalidBoundingBox(BoundingBoxProblem::EmptyIndex));
        }
        Ok(range_bbox(dataset, &self.v_acc, 0, self.v_acc.len(), dim))
    }

    /// Rebuilds the tree over the current entries. On failure the index is
    /// left without a root; it keeps its box when the entries or the box
    /// cannot be had, and holds the box it computed when the division fails.
    pub fn rebuild_current_indices<D: KdTreeDataset>(&mut self, dataset: &D, dim: usize, leaf_max_size: usize) -> (r: Result<()>)
        requires
            old(self).v_acc@.no_duplicates(),
            1 <= dim <= max_dim(),
            dataset.spec_point_count() > 0 ==> dim <= dataset.spec_point_dim(),
            old(self).root_bbox@.len() == dim,
            forall|d: int| 0 <= d < dim ==> (#[trigger] old(self).root_bbox@[d]).low <= old(self).root_bbox@[d].high,
        ensures
            final(self).size == old(self).v_acc@.len(),
            final(self).size_at_index_build == old(self).v_acc@.len(),
            final(self).v_acc@.len() == old(self).v_acc@.len(),
            final(self).indexed() == old(self).indexed(),
            final(self).v_acc@.no_duplicates(),
            final(self).root_bbox@.len() == dim,
            all_below(old(self).v_acc@, dataset.spec_point_count()) ==> final(self).wf(dataset, dim as nat),
            !all_below(old(self).v_acc@, dataset.spec_point_count()) ==> {
                &&& final(self).v_acc@ == old(self).v_acc@
                &&& final(self).root_node is None
                &&& final(self).root_bbox@ == old(self).root_bbox@
                &&& first_out_of_bounds(old(self).v_acc@, dataset.spec_point_count(), 0) matches Some(k)
                &&& r == Err::<(), KdTreeError>(KdTreeError::IndexOutOfBounds {
                    index: old(self).v_acc@[k as int],
                    len: dataset.spec_point_count() as usize,
                })
            },
            all_below(old(self).v_acc@, dataset.spec_point_count()) ==> {
                if old(self).v_acc@.len() == 0 {
                    &&& r is Ok
                    &&& final(self).root_node is None
                    &&& final(self).root_bbox@ == zero_bbox(dim as nat)
                } else {
                    let shape = match dataset.spec_bbox() {
                        Some(b) => bbox_shape_error(b, dim as nat),
                        None => None,
                    };
                    &&& shape matches Some(e) ==> r == Err::<(), KdTreeError>(e) && final(self).root_node is None
                        && final(self).root_bbox@ == old(self).root_bbox@
                    &&& shape is None && leaf_max_size == 0 ==> r == Err::<(), KdTreeError>(
                        KdTreeError::InvalidBoundingBox(BoundingBoxProblem::SplitFailed),
                    ) && final(self).root_node is None && match dataset.spec_bbox() {
                        Some(b) => final(self).root_bbox@ == b,
                        None => tight_bbox(
                            final(self).root_bbox@,
                            final(self).v_acc@,
                            dataset,
                            0,
                            final(self).v_acc@.len() as int,
                            dim as nat,
                        ),
                    }
                    &&& shape is None && leaf_max_size > 0 ==> r is Ok && final(self).root_node is Some
                    &&& r is Ok ==> tight_bbox(
                        final(self).root_bbox@,
                        final(self).v_acc@,
                        dataset,
                        0,
                        final(self).v_acc@.len() as int,
                        dim as nat,
                    )
                    &&& r is Ok ==> node_shape(*final(self).root_node->0, final(self).v_acc@, dataset, leaf_max_size as nat)
                }
            },
    {
        let ghost v0 = self.v_acc@;
        self.size = self.v_acc.len();
        self.root_node = None;
        self.size_at_index_build = self.size;
        proof { lemma_range_perm_refl(v0, 0, v0.len() as int); }
        if self.v_acc.len() == 0 {
            self.root_bbox = zeros_bbox(dim);
            return Ok(());
        }
        match validate_entries(&self.v_acc, dataset) {
            Ok(()) => {},
            Err(e) => {
                return Err(e);
            },
        }
        let mut bbox = match self.compute_bounding_box(dataset, dim) {
            Ok(b) => b,
            Err(e) => {
                return Err(e);
            },
        };
        self.root_bbox = copy_intervals(&bbox);
        if leaf_max_size == 0 {
            proof {
                match dataset.spec_bbox() {
                    Some(b) => {
                        lemma_first_inverted_none(bbox@, 0);
                    },
                    None => {
                        lemma_tight_contains(bbox@, self.v_acc@, dataset, 0, self.v_acc@.len() as int, dim as nat);
                        assert forall|d: int| 0 <= d < dim implies (#[trigger] bbox@[d]).low <= bbox@[d].high by {
                            assert(dim_contains(bbox@[d], self.v_acc@, dataset, 0, self.v_acc@.len() as int, d));
                            assert(bbox@[d].low <= dataset.spec_pt(self.v_acc@[0] as int, d) <= bbox@[d].high);
                        }
                    },
                }
            }
            return Err(KdTreeError::InvalidBoundingBox(BoundingBoxProblem::SplitFailed));
        }
        let mut v: Vec<usize> = Vec::new();
        std::mem::swap(&mut v, &mut self.v_acc);
        let len = v.len();
        let res = divide_tree(dataset, &mut v, dim, leaf_max_size, 0, len, &mut bbox);
        proof {
            lemma_range_perm_no_dup(v0, v@, 0, len as int);
            lemma_range_perm_same_set(v0, v@);
        }
        self.v_acc = v;
        match res {
            Ok(root) => {
                proof {
                    assert(0 < len);
                    lemma_tight_contains(bbox@, self.v_acc@, dataset, 0, len as int, dim as nat);
                    assert forall|d: int| 0 <= d < dim implies (#[trigger] bbox@[d]).low <= bbox@[d].high by {
                        assert(dim_contains(bbox@[d], self.v_acc@, dataset, 0, len as int, d));
                        assert(bbox@[d].low <= dataset.spec_pt(self.v_acc@[0] as int, d) <= bbox@[d].high);
                    }
                }
                self.root_bbox = bbox;
                self.root_node = Some(root);
                Ok(())
            },
            Err(e) => {
                proof {
                    assert(false);
                }
                Err(e)
            },
        }
    }
}

/// A copy of the intervals of `b`.
fn copy_intervals(b: &Vec<Interval>) -> (r: Vec<Interval>)
    ensures
        r@ == b@,
{
    let mut r: Vec<Interval> = Vec::new();
    let mut i: usize = 0;
    while i < b.len()
        invariant
            0 <= i <= b@.len(),
            r@ == b@.take(i as int),
        decreases b@.len() - i,
    {
        r.push(b[i]);
        i = i + 1;
        proof {
            assert(r@ =~= b@.take(i as int));
        }
    }
    proof {
        assert(b@.take(b@.len() as int) =~= b@);
    }
    r
}

impl KdTreeIndex {
    /// Removes and returns all entries, leaving the index empty and without a root.
    pub(crate) fn take_entries(&mut self) -> (moved: Vec<usize>)
        ensures
            moved@ == old(self).v_acc@,
            final(self).v_acc@.len() == 0,
            final(self).root_node is None,
            final(self).root_bbox@ == old(self).root_bbox@,
            final(self).size == old(self).size,
            final(self).size_at_index_build == old(self).size_at_index_build,
    {
        let mut moved: Vec<usize> = Vec::new();
        std::mem::swap(&mut moved, &mut self.v_acc);
        self.root_node = None;
        moved
    }

    /// Appends an entry; the index is left without a root until it is rebuilt.
    pub(crate) fn push_entry(&mut self, idx: usize)
        ensures
            final(self).v_acc@ == old(self).v_acc@.push(idx),
            final(self).root_node is None,
            final(self).root_bbox@ == old(self).root_bbox@,
            final(self).size == old(self).size,
            final(self).size_at_index_build == old(self).size_at_index_build,
    {
        self.v_acc.push(idx);
        self.root_node = None;
    }
}

/// `b` holds the points of `a` unchanged, with the same dimension, and
/// perhaps more points after them.
pub open spec fn extends<D: KdTreeDataset>(a: &D, b: &D) -> bool {
    &&& a.spec_point_count() <= b.spec_point_count()
    &&& a.spec_point_dim() == b.spec_point_dim()
    &&& forall|i: int, d: int|
        0 <= i < a.spec_point_count() && 0 <= d < a.spec_point_dim() ==> #[trigger] b.spec_pt(i, d) == a.spec_pt(i, d)
}

/// A valid node stays valid when points are appended to its dataset.
proof fn lemma_node_wf_extends<D: KdTreeDataset>(n: Node, v: Seq<usize>, a: &D, b: &D, dim: nat)
    requires
        node_wf(n, v, a, dim),
        readable(a, v, dim),
        extends(a, b),
    ensures
        node_wf(n, v, b, dim),
    decreases n,
{
    lemma_node_range(n, v, a, dim);
    match n {
        Node::Leaf { .. } => {},
        Node::Split { divfeat, divlow, divhigh, child1, child2 } => {
            lemma_node_wf_extends(*child1, v, a, b, dim);
            lemma_node_wf_extends(*child2, v, a, b, dim);
            lemma_node_range(*child1, v, a, dim);
            lemma_node_range(*child2, v, a, dim);
            assert forall|k: int| node_lo(*child1) <= k < node_hi(*child1) implies b.spec_pt(#[trigger] v[k] as int, divfeat as int)
                <= divlow by {
                assert(v[k] < a.spec_point_count());
                assert(b.spec_pt(v[k] as int, divfeat as int) == a.spec_pt(v[k] as int, divfeat as int));
            }
            assert forall|k: int| node_lo(*child2) <= k < node_hi(*child2) implies b.spec_pt(#[trigger] v[k] as int, divfeat as int)
                >= divhigh by {
                assert(v[k] < a.spec_point_count());
                assert(b.spec_pt(v[k] as int, divfeat as int) == a.spec_pt(v[k] as int, divfeat as int));
            }
        },
    }
}

/// A consistent index stays consistent when points are appended to its dataset.
pub proof fn lemma_index_wf_extends<D: KdTreeDataset>(idx: KdTreeIndex, a: &D, b: &D, dim: nat)
    requires
        idx.wf(a, dim),
        extends(a, b),
        b.spec_point_count() > 0 ==> dim <= b.spec_point_dim(),
    ensures
        idx.wf(b, dim),
{
    let v = idx.v_acc@;
    assert forall|k: int| 0 <= k < v.len() implies (#[trigger] v[k]) < b.spec_point_count() by {
        assert(v[k] < a.spec_point_count());
    }
    if idx.root_node is Some {
        let root = idx.root_node->0;
        lemma_node_wf_extends(*root, v, a, b, dim);
        assert forall|d: int| 0 <= d < dim implies #[trigger] dim_contains(idx.root_bbox@[d], v, b, 0, v.len() as int, d) by {
            assert(dim_contains(idx.root_bbox@[d], v, a, 0, v.len() as int, d));
            assert forall|k: int| 0 <= k < v.len() implies idx.root_bbox@[d].low <= #[trigger] b.spec_pt(v[k] as int, d)
                <= idx.root_bbox@[d].high by {
                assert(v[k] < a.spec_point_count());
                assert(b.spec_pt(v[k] as int, d) == a.spec_pt(v[k] as int, d));
            }
        }
    }
}

/// Point `c` of `ds` lies inside the box `b` in its first `dim` dimensions, bounds included.
pub open spec fn in_box<D: KdTreeDataset>(ds: &D, c: int, b: Seq<Interval>, dim: nat) -> bool {
    forall|d: int| 0 <= d < dim ==> b[d].low <= #[trigger] ds.spec_pt(c, d) <= b[d].high
}

/// The points at the entries `[lo, hi)` of `v` that lie inside `b`.
pub open spec fn box_hits<D: KdTreeDataset>(ds: &D, v: Seq<usize>, lo: int, hi: int, b: Seq<Interval>, dim: nat) -> Set<int> {
    range_set(v, lo, hi).filter(|c: int| in_box(ds, c, b, dim))
}

/// Whether point `idx` lies inside `bbox`.
fn contains_point<D: KdTreeDataset>(dataset: &D, bbox: &[Interval], idx: usize, dim: usize) -> (r: bool)
    requires
        idx < dataset.spec_point_count(),
        dim <= dataset.spec_point_dim(),
        bbox@.len() == dim,
    ensures
        r == in_box(dataset, idx as int, bbox@, dim as nat),
{
    let mut d: usize = 0;
    while d < dim
        invariant
            0 <= d <= dim,
            idx < dataset.spec_point_count(),
            dim <= dataset.spec_point_dim(),
            bbox@.len() == dim,
            forall|j: int| 0 <= j < d ==> bbox@[j].low <= #[trigger] dataset.spec_pt(idx as int, j) <= bbox@[j].high,
        decreases dim - d,
    {
        let point = dataset.kdtree_get_pt(idx, d);
        if point < bbox[d].low || point > bbox[d].high {
            return false;
        }
        d = d + 1;
    }
    true
}

/// Appends to `found` the points of the subtree `node` inside `bbox`, skipping
/// a child whose side of the split lies wholly outside the box; the second
/// child is visited first.
fn box_search<D: KdTreeDataset>(
    dataset: &D,
    v: &Vec<usize>,
    dim: usize,
    node: &Node,
    bbox: &[Interval],
    found: &mut Vec<usize>,
)
    requires
        node_wf(*node, v@, dataset, dim as nat),
        readable(dataset, v@, dim as nat),
        v@.no_duplicates(),
        bbox@.len() == dim,
        old(found)@.no_duplicates(),
        forall|c: int| #[trigger] range_set(old(found)@, 0, old(found)@.len() as int).contains(c) ==> !range_set(
            v@,
            node_lo(*node),
            node_hi(*node),
        ).contains(c),
    ensures
        final(found)@.no_duplicates(),
        range_set(final(found)@, 0, final(found)@.len() as int) == range_set(old(found)@, 0, old(found)@.len() as int).union(
            box_hits(dataset, v@, node_lo(*node), node_hi(*node), bbox@, dim as nat),
        ),
    decreases node,
{
    proof {
        lemma_node_range(*node, v@, dataset, dim as nat);
    }
    let ghost f0 = found@;
    match node {
        Node::Leaf { left, right } => {
            let left = *left;
            let right = *right;
            let mut offset = left;
            assert(box_hits(dataset, v@, left as int, left as int, bbox@, dim as nat) =~= Set::<int>::empty());
            assert(range_set(f0, 0, f0.len() as int).union(Set::<int>::empty()) =~= range_set(f0, 0, f0.len() as int));
            while offset < right
                invariant
                    left <= offset <= right <= v@.len(),
                    node_lo(*node) == left,
                    node_hi(*node) == right,
                    readable(dataset, v@, dim as nat),
                    v@.no_duplicates(),
                    bbox@.len() == dim,
                    found@.no_duplicates(),
                    forall|c: int| #[trigger] range_set(f0, 0, f0.len() as int).contains(c) ==> !range_set(
                        v@,
                        left as int,
                        right as int,
                    ).contains(c),
                    range_set(found@, 0, found@.len() as int) == range_set(f0, 0, f0.len() as int).union(
                        box_hits(dataset, v@, left as int, offset as int, bbox@, dim as nat),
                    ),
                decreases right - offset,
            {
                let idx = v[offset];
                proof {
                    lemma_range_set_extend(v@, left as int, offset as int);
                    assert(box_hits(dataset, v@, left as int, offset + 1, bbox@, dim as nat) =~= (if in_box(
                        dataset,
                        idx as int,
                        bbox@,
                        dim as nat,
                    ) {
                        box_hits(dataset, v@, left as int, offset as int, bbox@, dim as nat).insert(idx as int)
                    } else {
                        box_hits(dataset, v@, left as int, offset as int, bbox@, dim as nat)
                    }));
                    assert(idx < dataset.spec_point_count());
                }
                if contains_point(dataset, bbox, idx, dim) {
                    let ghost before = found@;
                    proof {
                        assert(!range_set(before, 0, before.len() as int).contains(idx as int)) by {
                            if range_set(before, 0, before.len() as int).contains(idx as int) {
                                if range_set(f0, 0, f0.len() as int).contains(idx as int) {
                                    assert(range_set(v@, left as int, right as int).contains(idx as int));
                                } else {
                                    let k = choose|k: int| left <= k < offset && v@[k] as int == idx as int;
                                    assert(v@[k] == v@[offset as int]);
                                }
                            }
                        }
                    }
                    found.push(idx);
                    proof {
                        lemma_range_set_extend(found@, 0, before.len() as int);
                        assert(found@.subrange(0, before.len() as int) =~= before);
                        assert(range_set(found@, 0, before.len() as int) =~= range_set(before, 0, before.len() as int));
                        assert forall|i: int, j: int| 0 <= i < found@.len() && 0 <= j < found@.len() && i != j implies found@[i] != found@[j] by {
                            if i == before.len() {
                                assert(range_set(before, 0, before.len() as int).contains(before[j] as int));
                            } else if j == before.len() {
                                assert(range_set(before, 0, before.len() as int).contains(before[i] as int));
                            }
                        }
                        assert(range_set(found@, 0, found@.len() as int) =~= range_set(f0, 0, f0.len() as int).union(
                            box_hits(dataset, v@, left as int, offset + 1, bbox@, dim as nat),
                        ));
                    }
                } else {
                    proof {
                        assert(range_set(found@, 0, found@.len() as int) =~= range_set(f0, 0, f0.len() as int).union(
                            box_hits(dataset, v@, left as int, offset + 1, bbox@, dim as nat),
                        ));
                    }
                }
                offset = offset + 1;
            }
        },
        Node::Split { divfeat, divlow, divhigh, child1, child2 } => {
            let f = *divfeat;
            let c1: &Node = &**child1;
            let c2: &Node = &**child2;
            let ghost lo = node_lo(*node);
            let ghost mid = node_hi(*c1);
            let ghost hi = node_hi(*node);
            proof {
                lemma_node_range(*c1, v@, dataset, dim as nat);
                lemma_node_range(*c2, v@, dataset, dim as nat);
                lemma_range_set_split(v@, lo, mid, hi);
            }
            let visit1 = bbox[f].low <= *divlow;
            let visit2 = bbox[f].high >= *divhigh;
            let ghost hits1 = box_hits(dataset, v@, lo, mid, bbox@, dim as nat);
            let ghost hits2 = box_hits(dataset, v@, mid, hi, bbox@, dim as nat);
            proof {
                if !visit1 {
                    assert(hits1 =~= Set::<int>::empty()) by {
                        assert forall|c: int| !hits1.contains(c) by {
                            if hits1.contains(c) {
                                let k = choose|k: int| lo <= k < mid && v@[k] as int == c;
                                assert(dataset.spec_pt(v@[k] as int, f as int) <= *divlow);
                                assert(in_box(dataset, c, bbox@, dim as nat));
                                assert(bbox@[f as int].low <= dataset.spec_pt(c, f as int));
                            }
                        }
                    }
                }
                if !visit2 {
                    assert(hits2 =~= Set::<int>::empty()) by {
                        assert forall|c: int| !hits2.contains(c) by {
                            if hits2.contains(c) {
                                let k = choose|k: int| mid <= k < hi && v@[k] as int == c;
                                assert(dataset.spec_pt(v@[k] as int, f as int) >= *divhigh);
                                assert(in_box(dataset, c, bbox@, dim as nat));
                                assert(dataset.spec_pt(c, f as int) <= bbox@[f as int].high);
                            }
                        }
                    }
                }
            }
            if visit2 {
                proof {
                    assert forall|c: int| #[trigger] range_set(found@, 0, found@.len() as int).contains(c) implies !range_set(v@, mid, hi).contains(c) by {
                        assert(!range_set(v@, lo, hi).contains(c));
                    }
                }
                box_search(dataset, v, dim, c2, bbox, found);
            }
            let ghost f1 = found@;
            proof {
                assert(range_set(f1, 0, f1.len() as int) == range_set(f0, 0, f0.len() as int).union(hits2));
                assert forall|c: int| #[trigger] range_set(f1, 0, f1.len() as int).contains(c) implies !range_set(v@, lo, mid).contains(c) by {
                    if range_set(f0, 0, f0.len() as int).contains(c) {
                        assert(!range_set(v@, lo, hi).contains(c));
                    } else {
                        assert(range_set(v@, mid, hi).contains(c));
                        lemma_range_set_disjoint(v@, mid, hi, lo, mid, c);
                    }
                }
            }
            if visit1 {
                box_search(dataset, v, dim, c1, bbox, found);
            }
            proof {
                assert(box_hits(dataset, v@, lo, hi, bbox@, dim as nat) =~= hits1.union(hits2));
                assert(range_set(found@, 0, found@.len() as int) =~= range_set(f0, 0, f0.len() as int).union(
                    box_hits(dataset, v@, lo, hi, bbox@, dim as nat),
                ));
            }
        },
    }
}

impl KdTreeIndex {
    /// Runs a search over the index into `result`, with the points passing
    /// `active`. Fails for a too short query, and for an index of nonzero size
    /// that has not been built; an index of size zero leaves `result` as it was.
    pub(crate) fn find_neighbors_set<D: KdTreeDataset, M: DistanceMetric>(
        &self,
        dataset: &D,
        metric: &M,
        dim: usize,
        result: &mut Collector,
        query: &[i32],
        search_params: SearchParameters,
        active: Option<&Vec<Option<usize>>>,
        Ghost(handled): Ghost<Set<int>>,
        Ghost(seen): Ghost<Set<int>>,
    ) -> (r: Result<bool>)
        requires
            self.wf(dataset, dim as nat),
            1 <= dim <= max_dim(),
            metric.spec_accepts_size(dim as nat),
            search_inv(*old(result), handled, metric, dataset, query@, dim as nat, 1 + search_params.eps, filter_view(active)),
            forall|c: int| #[trigger] self.indexed().contains(c) ==> !handled.contains(c),
            seen_inv(*old(result), seen, metric, dataset, query@, dim as nat, filter_view(active)),
        ensures
            final(result).bounded == old(result).bounded,
            final(result).capacity == old(result).capacity,
            final(result).radius == old(result).radius,
            final(result).first_match == old(result).first_match,
            query@.len() < dim ==> r == Err::<bool, KdTreeError>(
                KdTreeError::QueryDimensionalityMismatch { expected_at_least: dim, got: query@.len() as usize },
            ) && final(result).items@ == old(result).items@,
            query@.len() >= dim && self.size == 0 ==> r == Ok::<bool, KdTreeError>(false) && final(result).items@ == old(result).items@,
            query@.len() >= dim && self.size != 0 && self.root_node is None ==> r == Err::<bool, KdTreeError>(
                KdTreeError::IndexNotBuilt,
            ) && final(result).items@ == old(result).items@,
            query@.len() >= dim && self.size != 0 && self.root_node is Some ==> {
                &&& r == Ok::<bool, KdTreeError>(!final(result).bounded || final(result).items@.len() == final(result).capacity)
                &&& search_inv(
                    *final(result),
                    handled.union(self.indexed()),
                    metric,
                    dataset,
                    query@,
                    dim as nat,
                    1 + search_params.eps,
                    filter_view(active),
                )
                &&& search_params.sorted ==> sorted_by_distance(final(result).items@)
                &&& seen_inv(
                    *final(result),
                    seen.union(home_points(*self.root_node->0, self.v_acc@, query@)),
                    metric,
                    dataset,
                    query@,
                    dim as nat,
                    filter_view(active),
                )
            },
    {
        if query.len() < dim {
            return Err(KdTreeError::QueryDimensionalityMismatch { expected_at_least: dim, got: query.len() });
        }
        if self.size == 0 {
            return Ok(false);
        }
        let root: &Node = match &self.root_node {
            Some(r) => &**r,
            None => {
                return Err(KdTreeError::IndexNotBuilt);
            },
        };
        let eps_error: i128 = 1 + search_params.eps as i128;
        let (mindist, mut dists) = initial_distances(metric, query, &self.root_bbox, dim);
        proof {
            assert(node_lo(*root) == 0 && node_hi(*root) == self.v_acc@.len());
            assert forall|c: int| #[trigger] range_set(self.v_acc@, node_lo(*root), node_hi(*root)).contains(c) implies !handled.contains(c) by {
                assert(self.indexed().contains(c));
            }
            if metric.obeys_pruning_laws() {
                assert forall|k: int, d: int| 0 <= k < self.v_acc@.len() && 0 <= d < dim implies dists@[d]
                    <= #[trigger] metric.spec_accum(query@[d], dataset.spec_pt(self.v_acc@[k] as int, d), d) by {
                    let p = dataset.spec_pt(self.v_acc@[k] as int, d);
                    let b = self.root_bbox@[d];
                    assert(dim_contains(b, self.v_acc@, dataset, 0, self.v_acc@.len() as int, d));
                    assert(b.low <= p <= b.high);
                    if query@[d] < b.low {
                        metric.lemma_pruning_laws(query@[d], p, b.low, d);
                    } else if query@[d] > b.high {
                        metric.lemma_pruning_laws(query@[d], p, b.high, d);
                    } else {
                        metric.lemma_pruning_laws(query@[d], p, p, d);
                    }
                }
            }
        }
        search_level(dataset, metric, &self.v_acc, dim, result, query, root, mindist, &mut dists, eps_error, active, Ghost(handled), Ghost(seen));
        if search_params.sorted {
            let ghost before = *result;
            result.sort();
            proof {
                lemma_seen_sort(
                    before,
                    *result,
                    seen.union(home_points(*root, self.v_acc@, query@)),
                    metric,
                    dataset,
                    query@,
                    dim as nat,
                    filter_view(active),
                );
                lemma_sort_keeps_inv(
                    before,
                    *result,
                    handled.union(self.indexed()),
                    metric,
                    dataset,
                    query@,
                    dim as nat,
                    1 + search_params.eps,
                    filter_view(active),
                );
            }
        }
        Ok(result.full())
    }

    /// All indexed points inside `bbox`, bounds included. Fails for a box of the
    /// wrong shape, and for an index of nonzero size that has not been built.
    pub fn find_within_box<D: KdTreeDataset>(&self, dataset: &D, dim: usize, bbox: &[Interval]) -> (r: Result<Vec<usize>>)
        requires
            self.wf(dataset, dim as nat),
        ensures
            bbox_shape_error(bbox@, dim as nat) matches Some(e) ==> r == Err::<Vec<usize>, KdTreeError>(e),
            bbox_shape_error(bbox@, dim as nat) is None && self.size == 0 ==> (r matches Ok(found) && found@.len() == 0),
            bbox_shape_error(bbox@, dim as nat) is None && self.size != 0 && self.root_node is None ==> r
                == Err::<Vec<usize>, KdTreeError>(KdTreeError::IndexNotBuilt),
            bbox_shape_error(bbox@, dim as nat) is None && self.size != 0 && self.root_node is Some ==> (r matches Ok(found) && {
                &&& found@.no_duplicates()
                &&& range_set(found@, 0, found@.len() as int) == self.indexed().filter(|c: int| in_box(dataset, c, bbox@, dim as nat))
            }),
    {
        match validate_bbox_shape(dim, bbox) {
            Ok(()) => {},
            Err(e) => {
                return Err(e);
            },
        }
        if self.size == 0 {
            return Ok(Vec::new());
        }
        let root: &Node = match &self.root_node {
            Some(r) => &**r,
            None => {
                return Err(KdTreeError::IndexNotBuilt);
            },
        };
        let mut found: Vec<usize> = Vec::new();
        proof {
            assert(range_set(found@, 0, 0) =~= Set::<int>::empty());
        }
        box_search(dataset, &self.v_acc, dim, root, bbox, &mut found);
        proof {
            assert(Set::<int>::empty().union(box_hits(dataset, self.v_acc@, 0, self.v_acc@.len() as int, bbox@, dim as nat))
                =~= self.indexed().filter(|c: int| in_box(dataset, c, bbox@, dim as nat)));
        }
        Ok(found)
    }
}

/// The entries of the identity permutation are the points `[0, n)`.
pub proof fn lemma_identity_set(n: nat)
    requires
        n <= usize::MAX,
    ensures
        range_set(identity(n), 0, n as int) == Set::new(|i: int| 0 <= i < n),
{
    assert forall|c: int| 0 <= c < n implies #[trigger] range_set(identity(n), 0, n as int).contains(c) by {
        assert(identity(n)[c] as int == c);
    }
    assert(range_set(identity(n), 0, n as int) =~= Set::new(|i: int| 0 <= i < n));
}

/// The index has been built over all `n` points of its dataset.
pub open spec fn built_over(index: KdTreeIndex, n: nat) -> bool {
    &&& index.size == n
    &&& index.size_at_index_build == n
    &&& index.indexed() == Set::new(|i: int| 0 <= i < n)
    &&& (n > 0 <==> index.root_node is Some)
}

/// Static KD-tree over the points of a dataset.
pub struct KdTree<'a, D: KdTreeDataset, M: DistanceMetric> {
    dataset: &'a D,
    metric: M,
    params: KdTreeParams,
    dim: usize,
    index: KdTreeIndex,
}

impl<'a, D: KdTreeDataset, M: DistanceMetric> KdTree<'a, D, M> {
    /// The dataset the tree indexes.
    pub closed spec fn spec_dataset(&self) -> &'a D {
        self.dataset
    }

    /// The metric of searches.
    pub closed spec fn spec_metric(&self) -> M {
        self.metric
    }

    /// The build parameters.
    pub closed spec fn spec_params(&self) -> KdTreeParams {
        self.params
    }

    /// The dimensionality of the tree.
    pub closed spec fn spec_dim(&self) -> nat {
        self.dim as nat
    }

    /// The index structure.
    pub closed spec fn spec_index(&self) -> KdTreeIndex {
        self.index
    }

    /// The tree is consistent with its dataset.
    pub closed spec fn wf(&self) -> bool {
        &&& 1 <= self.dim <= max_dim()
        &&& self.metric.spec_accepts_size(self.dim as nat)
        &&& self.index.wf(self.dataset, self.dim as nat)
    }

    /// Creates a KD-tree over `dataset`. Unless `params.skip_initial_build` is
    /// set, this also builds the index.
    pub fn new(dim: usize, dataset: &'a D, metric: M, params: KdTreeParams) -> (res: Result<Self>)
        requires
            dim <= max_dim(),
            dim > 0 ==> metric.spec_accepts_size(dim as nat),
            dim > 0 && params.leaf_max_size > 0 && !params.skip_initial_build && dataset.spec_point_count() > 0 ==> dim
                <= dataset.spec_point_dim(),
        ensures
            dim == 0 ==> res == Err::<Self, KdTreeError>(KdTreeError::InvalidDimensionality),
            dim > 0 && params.leaf_max_size == 0 ==> res == Err::<Self, KdTreeError>(KdTreeError::InvalidLeafMaxSize),
            res matches Ok(t) ==> {
                &&& t.wf()
                &&& t.spec_dataset() == dataset
                &&& t.spec_metric() == metric
                &&& t.spec_params() == params
                &&& t.spec_dim() == dim
                &&& params.skip_initial_build ==> {
                    &&& t.spec_index().size == dataset.spec_point_count()
                    &&& t.spec_index().size_at_index_build == 0
                    &&& t.spec_index().root_bbox@ == zero_bbox(dim as nat)
                    &&& t.spec_index().root_node is None
                    &&& t.spec_index().v_acc@.len() == 0
                }
                &&& !params.skip_initial_build && dataset.spec_point_count() == 0 ==> t.spec_index().root_bbox@ == zero_bbox(dim as nat)
                &&& !params.skip_initial_build && dataset.spec_point_count() > 0 ==> node_shape(
                    *t.spec_index().root_node->0,
                    t.spec_index().v_acc@,
                    dataset,
                    params.leaf_max_size as nat,
                )
                &&& !params.skip_initial_build ==> built_over(t.spec_index(), dataset.spec_point_count())
                &&& !params.skip_initial_build ==> t.spec_index().wf(dataset, dim as nat)
                &&& !params.skip_initial_build ==> t.spec_index().v_acc@.len() == dataset.spec_point_count()
                &&& !params.skip_initial_build && dataset.spec_point_count() > 0 ==> tight_bbox(
                    t.spec_index().root_bbox@,
                    t.spec_index().v_acc@,
                    dataset,
                    0,
                    dataset.spec_point_count() as int,
                    dim as nat,
                )
            },
            dim > 0 && params.leaf_max_size > 0 && (params.skip_initial_build || dataset.spec_point_count() == 0) ==> res is Ok,
            dim > 0 && params.leaf_max_size > 0 && !params.skip_initial_build && dataset.spec_point_count() > 0 ==> {
                let shape = match dataset.spec_bbox() {
                    Some(b) => bbox_shape_error(b, dim as nat),
                    None => None,
                };
                let n = dataset.spec_point_count();
                &&& n > u32::MAX ==> res == Err::<Self, KdTreeError>(KdTreeError::DatasetTooLarge { point_count: n as usize })
                &&& n <= u32::MAX && shape is None ==> res is Ok
                &&& n <= u32::MAX ==> (shape matches Some(e) ==> res == Err::<Self, KdTreeError>(e))
            },
    {
        if dim == 0 {
            return Err(KdTreeError::InvalidDimensionality);
        }
        if params.leaf_max_size == 0 {
            return Err(KdTreeError::InvalidLeafMaxSize);
        }
        let size = dataset.kdtree_get_point_count();
        let mut tree = KdTree { dataset, metric, params, dim, index: KdTreeIndex::unbuilt(size, dim) };
        if !params.skip_initial_build {
            match tree.build_index() {
                Ok(()) => {},
                Err(e) => {
                    return Err(e);
                },
            }
        }
        Ok(tree)
    }

    /// Dimensionality of the tree.
    pub fn dim(&self) -> (r: usize)
        ensures
            r == self.spec_dim(),
    {
        self.dim
    }

    /// Number of points the index reports.
    pub fn size(&self) -> (r: usize)
        ensures
            r == self.spec_index().size,
    {
        self.index.size
    }

    /// Number of points at the last build.
    pub fn size_at_index_build(&self) -> (r: usize)
        ensures
            r == self.spec_index().size_at_index_build,
    {
        self.index.size_at_index_build
    }

    /// The build parameters.
    pub fn params(&self) -> (r: KdTreeParams)
        ensures
            r == self.spec_params(),
    {
        self.params
    }

    /// The bounding box of the indexed points.
    pub fn root_bbox(&self) -> (r: &[Interval])
        ensures
            r@ == self.spec_index().root_bbox@,
    {
        self.index.root_bbox.as_slice()
    }

    /// Builds or rebuilds the static index over all current dataset points.
    /// Fails only for a dataset box of the wrong shape, or with
    /// `leaf_max_size == 0`; a failed build leaves the tree unbuilt.
    pub fn build_index(&mut self) -> (r: Result<()>)
        requires
            old(self).wf(),
            1 <= old(self).spec_dim() <= max_dim(),
            old(self).spec_metric().spec_accepts_size(old(self).spec_dim()),
            old(self).spec_dataset().spec_point_count() > 0 ==> old(self).spec_dim() <= old(self).spec_dataset().spec_point_dim(),
        ensures
            final(self).wf(),
            final(self).spec_dataset() == old(self).spec_dataset(),
            final(self).spec_metric() == old(self).spec_metric(),
            final(self).spec_params() == old(self).spec_params(),
            final(self).spec_dim() == old(self).spec_dim(),
            r is Ok ==> built_over(final(self).spec_index(), old(self).spec_dataset().spec_point_count()),
            r is Ok ==> final(self).spec_index().wf(old(self).spec_dataset(), old(self).spec_dim()),
            r is Ok ==> final(self).spec_index().v_acc@.len() == old(self).spec_dataset().spec_point_count(),
            r is Ok && old(self).spec_dataset().spec_point_count() > 0 ==> node_shape(
                *final(self).spec_index().root_node->0,
                final(self).spec_index().v_acc@,
                old(self).spec_dataset(),
                old(self).spec_params().leaf_max_size as nat,
            ),
            r is Ok && old(self).spec_dataset().spec_point_count() == 0 ==> final(self).spec_index().root_bbox@ == zero_bbox(
                old(self).spec_dim(),
            ),
            r is Ok && old(self).spec_dataset().spec_point_count() > 0 ==> tight_bbox(
                final(self).spec_index().root_bbox@,
                final(self).spec_index().v_acc@,
                old(self).spec_dataset(),
                0,
                old(self).spec_dataset().spec_point_count() as int,
                old(self).spec_dim(),
            ),
            r is Err ==> final(self).spec_index().root_node is None,
            ({
                let n = old(self).spec_dataset().spec_point_count();
                let shape = match old(self).spec_dataset().spec_bbox() {
                    Some(b) => bbox_shape_error(b, old(self).spec_dim()),
                    None => None,
                };
                &&& n > u32::MAX ==> r == Err::<(), KdTreeError>(KdTreeError::DatasetTooLarge { point_count: n as usize })
                &&& n == 0 ==> r is Ok
                &&& 0 < n <= u32::MAX && shape is None && old(self).spec_params().leaf_max_size > 0 ==> r is Ok
                &&& 0 < n <= u32::MAX && shape is None && old(self).spec_params().leaf_max_size == 0 ==> r == Err::<
                    (),
                    KdTreeError,
                >(KdTreeError::InvalidBoundingBox(BoundingBoxProblem::SplitFailed))
                &&& 0 < n <= u32::MAX ==> (shape matches Some(e) ==> r == Err::<(), KdTreeError>(e))
                &&& 0 < n <= u32::MAX && shape is Some ==> final(self).spec_index().root_bbox@ == old(self).spec_index().root_bbox@
            }),
    {
        let n = self.dataset.kdtree_get_point_count();
        if n > u32::MAX as usize {
            self.index = KdTreeIndex::unbuilt(n, self.dim);
            return Err(KdTreeError::DatasetTooLarge { point_count: n });
        }
        self.index.v_acc = init_vind(n);
        proof {
            lemma_identity_set(n as nat);
            assert(self.index.v_acc@.no_duplicates());
            assert(all_below(self.index.v_acc@, n as nat));
        }
        let r = self.index.rebuild_current_indices(self.dataset, self.dim, self.params.leaf_max_size);
        r
    }

    /// Returns the `num_closest` nearest neighbors.
    pub fn knn_search(&self, query: &[i32], num_closest: usize) -> (res: Result<Vec<ResultItem>>)
        requires
            self.wf(),
        ensures
            self.search_outcome(query@, res),
            res matches Ok(items) ==> self.spec_index().root_node is Some && self.spec_index().size != 0 ==> knn_answer(
                items@,
                self.spec_index().indexed(),
                &self.spec_metric(),
                self.spec_dataset(),
                query@,
                self.spec_dim(),
                num_closest as nat,
                i128::MAX as int,
                1,
                self.spec_params().first_match,
            ),
            res matches Ok(items) ==> self.spec_index().root_node is Some && self.spec_index().size != 0 ==> knn_covers(
                items@,
                self.query_leaf_points(query@),
                &self.spec_metric(),
                self.spec_dataset(),
                query@,
                self.spec_dim(),
                num_closest as nat,
                i128::MAX as int,
            ),
    {
        self.knn_search_with_params(query, num_closest, SearchParameters::default())
    }

    /// The points of the leaf that `query` falls into: from the root, down the
    /// child on the query's side of each split. With a leaf root these are all
    /// the indexed points.
    pub open spec fn query_leaf_points(&self, query: Seq<i32>) -> Set<int> {
        home_points(*self.spec_index().root_node->0, self.spec_index().v_acc@, query)
    }

    /// With a leaf root, every search reaches every indexed point: the points
    /// of the leaf a query falls into are all the indexed points, so the
    /// covering clauses of the searches make their answers complete for every
    /// metric.
    pub proof fn lemma_leaf_root_reaches_all(&self, query: Seq<i32>)
        requires
            self.wf(),
            self.spec_index().root_node is Some,
            *self.spec_index().root_node->0 is Leaf,
        ensures
            self.query_leaf_points(query) == self.spec_index().indexed(),
    {
        let root = *self.spec_index().root_node->0;
        assert(node_lo(root) == 0 && node_hi(root) == self.spec_index().v_acc@.len());
        assert(self.query_leaf_points(query) =~= self.spec_index().indexed()) by {
            assert forall|c: int| self.query_leaf_points(query).contains(c) <==> self.spec_index().indexed().contains(c) by {
                if self.spec_index().indexed().contains(c) {
                    let k = choose|k: int| 0 <= k < self.spec_index().v_acc@.len() && self.spec_index().v_acc@[k] as int == c;
                    assert(range_set(self.spec_index().v_acc@, 0, self.spec_index().v_acc@.len() as int).contains(c));
                }
            }
        }
    }

    /// How a search fails or returns nothing, by the query and the state of the index:
    /// a too short query fails; an index of size zero returns nothing; an
    /// unbuilt index of nonzero size fails; otherwise the search succeeds.
    pub open spec fn search_outcome<T>(&self, query: Seq<i32>, res: Result<Vec<T>>) -> bool {
        &&& query.len() < self.spec_dim() ==> res == Err::<Vec<T>, KdTreeError>(
            KdTreeError::QueryDimensionalityMismatch { expected_at_least: self.spec_dim() as usize, got: query.len() as usize },
        )
        &&& query.len() >= self.spec_dim() && self.spec_index().size == 0 ==> (res matches Ok(v) && v@.len() == 0)
        &&& query.len() >= self.spec_dim() && self.spec_index().size != 0 && self.spec_index().root_node is None ==> res
            == Err::<Vec<T>, KdTreeError>(KdTreeError::IndexNotBuilt)
        &&& query.len() >= self.spec_dim() && self.spec_index().size != 0 && self.spec_index().root_node is Some ==> res is Ok
    }

    /// Returns the `num_closest` nearest neighbors, pruning with `search_params.eps`.
    pub fn knn_search_with_params(&self, query: &[i32], num_closest: usize, search_params: SearchParameters) -> (res: Result<Vec<ResultItem>>)
        requires
            self.wf(),
        ensures
            self.search_outcome(query@, res),
            res matches Ok(items) ==> self.spec_index().root_node is Some && self.spec_index().size != 0 ==> knn_answer(
                items@,
                self.spec_index().indexed(),
                &self.spec_metric(),
                self.spec_dataset(),
                query@,
                self.spec_dim(),
                num_closest as nat,
                i128::MAX as int,
                1 + search_params.eps,
                self.spec_params().first_match,
            ),
            res matches Ok(items) ==> self.spec_index().root_node is Some && self.spec_index().size != 0 ==> knn_covers(
                items@,
                self.query_leaf_points(query@),
                &self.spec_metric(),
                self.spec_dataset(),
                query@,
                self.spec_dim(),
                num_closest as nat,
                i128::MAX as int,
            ),
    {
        let mut result = KnnResultSet::with_first_match(num_closest, self.params.first_match);
        proof {
            lemma_inv_empty(result.set, &self.metric, self.dataset, query@, self.dim as nat, 1 + search_params.eps, None);
        }
        match self.index.find_neighbors_set(
            self.dataset,
            &self.metric,
            self.dim,
            &mut result.set,
            query,
            search_params,
            None,
            Ghost(Set::empty()),
            Ghost(Set::empty()),
        ) {
            Ok(_) => {},
            Err(e) => {
                return Err(e);
            },
        }
        proof {
            if query@.len() >= self.dim && self.index.size != 0 && self.index.root_node is Some {
                assert(Set::<int>::empty().union(self.index.indexed()) =~= self.index.indexed());
                assert(Set::<int>::empty().union(self.query_leaf_points(query@)) =~= self.query_leaf_points(query@));
                lemma_knn_covers(result.set, self.query_leaf_points(query@), &self.metric, self.dataset, query@, self.dim as nat);
                lemma_knn_from_inv(
                    result.set,
                    Set::<int>::empty().union(self.index.indexed()),
                    self.index.indexed(),
                    &self.metric,
                    self.dataset,
                    query@,
                    self.dim as nat,
                    1 + search_params.eps,
                    None,
                );
            }
        }
        Ok(result.into_vec())
    }

    /// Returns all neighbors with `distance < radius`, nearest first.
    pub fn radius_search(&self, query: &[i32], radius: i128) -> (res: Result<Vec<ResultItem>>)
        requires
            self.wf(),
        ensures
            self.search_outcome(query@, res),
            res matches Ok(items) ==> self.spec_index().root_node is Some && self.spec_index().size != 0 ==> {
                &&& radius_answer(
                    items@,
                    self.spec_index().indexed(),
                    &self.spec_metric(),
                    self.spec_dataset(),
                    query@,
                    self.spec_dim(),
                    radius as int,
                    1,
                )
                &&& sorted_by_distance(items@)
            },
            res matches Ok(items) ==> self.spec_index().root_node is Some && self.spec_index().size != 0 ==> radius_covers(
                items@,
                self.query_leaf_points(query@),
                &self.spec_metric(),
                self.spec_dataset(),
                query@,
                self.spec_dim(),
                radius as int,
            ),
    {
        self.radius_search_with_params(query, radius, SearchParameters::default())
    }

    /// Returns all neighbors with `distance < radius`, pruning with
    /// `search_params.eps`, sorted by distance if `search_params.sorted`.
    pub fn radius_search_with_params(&self, query: &[i32], radius: i128, search_params: SearchParameters) -> (res: Result<Vec<ResultItem>>)
        requires
            self.wf(),
        ensures
            self.search_outcome(query@, res),
            res matches Ok(items) ==> self.spec_index().root_node is Some && self.spec_index().size != 0 ==> {
                &&& radius_answer(
                    items@,
                    self.spec_index().indexed(),
                    &self.spec_metric(),
                    self.spec_dataset(),
                    query@,
                    self.spec_dim(),
                    radius as int,
                    1 + search_params.eps,
                )
                &&& search_params.sorted ==> sorted_by_distance(items@)
            },
            res matches Ok(items) ==> self.spec_index().root_node is Some && self.spec_index().size != 0 ==> radius_covers(
                items@,
                self.query_leaf_points(query@),
                &self.spec_metric(),
                self.spec_dataset(),
                query@,
                self.spec_dim(),
                radius as int,
            ),
    {
        let mut result = RadiusResultSet::new(radius);
        proof {
            lemma_inv_empty(result.set, &self.metric, self.dataset, query@, self.dim as nat, 1 + search_params.eps, None);
        }
        match self.index.find_neighbors_set(
            self.dataset,
            &self.metric,
            self.dim,
            &mut result.set,
            query,
            search_params,
            None,
            Ghost(Set::empty()),
            Ghost(Set::empty()),
        ) {
            Ok(_) => {},
            Err(e) => {
                return Err(e);
            },
        }
        proof {
            if query@.len() >= self.dim && self.index.size != 0 && self.index.root_node is Some {
                assert(Set::<int>::empty().union(self.index.indexed()) =~= self.index.indexed());
                assert(Set::<int>::empty().union(self.query_leaf_points(query@)) =~= self.query_leaf_points(query@));
                lemma_radius_covers(result.set, self.query_leaf_points(query@), &self.metric, self.dataset, query@, self.dim as nat);
                lemma_radius_from_inv(
                    result.set,
                    Set::<int>::empty().union(self.index.indexed()),
                    self.index.indexed(),
                    &self.metric,
                    self.dataset,
                    query@,
                    self.dim as nat,
                    1 + search_params.eps,
                    None,
                );
            }
        }
        Ok(result.into_vec())
    }

    /// Returns the first `num_closest` neighbors that are also within `radius`.
    pub fn rknn_search(&self, query: &[i32], num_closest: usize, radius: i128) -> (res: Result<Vec<ResultItem>>)
        requires
            self.wf(),
        ensures
            self.search_outcome(query@, res),
            res matches Ok(items) ==> self.spec_index().root_node is Some && self.spec_index().size != 0 ==> knn_answer(
                items@,
                self.spec_index().indexed(),
                &self.spec_metric(),
                self.spec_dataset(),
                query@,
                self.spec_dim(),
                num_closest as nat,
                radius as int,
                1,
                self.spec_params().first_match,
            ),
            res matches Ok(items) ==> self.spec_index().root_node is Some && self.spec_index().size != 0 ==> knn_covers(
                items@,
                self.query_leaf_points(query@),
                &self.spec_metric(),
                self.spec_dataset(),
                query@,
                self.spec_dim(),
                num_closest as nat,
                radius as int,
            ),
    {
        let mut result = RknnResultSet::with_first_match(num_closest, radius, self.params.first_match);
        let search_params = SearchParameters::default();
        proof {
            lemma_inv_empty(result.set, &self.metric, self.dataset, query@, self.dim as nat, 1, None);
        }
        match self.index.find_neighbors_set(
            self.dataset,
            &self.metric,
            self.dim,
            &mut result.set,
            query,
            search_params,
            None,
            Ghost(Set::empty()),
            Ghost(Set::empty()),
        ) {
            Ok(_) => {},
            Err(e) => {
                return Err(e);
            },
        }
        proof {
            if query@.len() >= self.dim && self.index.size != 0 && self.index.root_node is Some {
                assert(Set::<int>::empty().union(self.index.indexed()) =~= self.index.indexed());
                assert(Set::<int>::empty().union(self.query_leaf_points(query@)) =~= self.query_leaf_points(query@));
                lemma_knn_covers(result.set, self.query_leaf_points(query@), &self.metric, self.dataset, query@, self.dim as nat);
                lemma_knn_from_inv(
                    result.set,
                    Set::<int>::empty().union(self.index.indexed()),
                    self.index.indexed(),
                    &self.metric,
                    self.dataset,
                    query@,
                    self.dim as nat,
                    1,
                    None,
                );
            }
        }
        Ok(result.into_vec())
    }

    /// Appends the saved form of the index to `out`: a portable little-endian
    /// binary format that holds the index structure but not the points. Load
    /// it into a tree over the same points.
    pub fn save_index(&self, out: &mut Vec<u8>)
        ensures
            final(out)@ == old(out)@ + index_bytes(self.spec_dim() as usize, self.spec_params().leaf_max_size, self.spec_index()),
    {
        write_index(out, self.dim, self.params.leaf_max_size, &self.index);
    }

    /// Loads an index saved with `save_index`, checked against the dataset:
    /// the saved dimensionality must be the tree's, the entries points of the
    /// dataset without repeats, and the nodes and box a valid tree over them.
    /// The saved leaf size replaces the tree's. On failure the tree is left as
    /// it was. An entry outside the dataset is reported as such and an
    /// inverted saved interval as an invalid box; data that ends early is an
    /// unexpected end, and every other fault an invalid index file. The saved
    /// nodes are checked against the points, so those must have the tree's
    /// dimensionality.
    pub fn load_index(&mut self, bytes: &[u8]) -> (r: Result<()>)
        requires
            old(self).wf(),
            old(self).spec_dataset().spec_point_count() > 0 ==> old(self).spec_dim() <= old(self).spec_dataset().spec_point_dim(),
        ensures
            final(self).wf(),
            final(self).spec_dataset() == old(self).spec_dataset(),
            final(self).spec_metric() == old(self).spec_metric(),
            final(self).spec_dim() == old(self).spec_dim(),
            final(self).spec_params().skip_initial_build == old(self).spec_params().skip_initial_build,
            final(self).spec_params().n_thread_build == old(self).spec_params().n_thread_build,
            final(self).spec_params().first_match == old(self).spec_params().first_match,
            r is Ok <==> exists|leaf: usize, idx: KdTreeIndex|
                #[trigger] encodes(bytes@, old(self).spec_dim() as usize, leaf, idx) && idx.wf(
                    old(self).spec_dataset(),
                    old(self).spec_dim(),
                ),
            r is Ok ==> encodes(bytes@, old(self).spec_dim() as usize, final(self).spec_params().leaf_max_size, final(self).spec_index()),
            r is Err ==> final(self).spec_index() == old(self).spec_index() && final(self).spec_params() == old(self).spec_params(),
            bytes@.len() < 7 ==> r == Err::<(), KdTreeError>(KdTreeError::InvalidIndexFile(IndexFileProblem::UnexpectedEnd)),
            bytes@.len() >= 7 && bytes@.subrange(0, 7) != index_magic() ==> r == Err::<(), KdTreeError>(
                KdTreeError::InvalidIndexFile(IndexFileProblem::BadMagic),
            ),
            bytes@.len() >= 15 && bytes@.subrange(0, 7) == index_magic() && u64_at(bytes@, 7) <= usize::MAX && u64_at(bytes@, 7)
                != old(self).spec_dim() ==> r == Err::<(), KdTreeError>(
                KdTreeError::InvalidIndexFile(
                    IndexFileProblem::DimensionalityMismatch {
                        saved: u64_at(bytes@, 7) as usize,
                        expected: old(self).spec_dim() as usize,
                    },
                ),
            ),
            forall|v: Seq<usize>|
                #[trigger] saved_entries(bytes@, old(self).spec_dim() as usize, v) && !all_below(
                    v,
                    old(self).spec_dataset().spec_point_count(),
                ) ==> r == Err::<(), KdTreeError>(
                    KdTreeError::IndexOutOfBounds {
                        index: v[first_out_of_bounds(v, old(self).spec_dataset().spec_point_count(), 0)->0 as int],
                        len: old(self).spec_dataset().spec_point_count() as usize,
                    },
                ),
            forall|v: Seq<usize>|
                #[trigger] saved_entries(bytes@, old(self).spec_dim() as usize, v) && all_below(
                    v,
                    old(self).spec_dataset().spec_point_count(),
                ) && 55 + 8 * v.len() <= bytes@.len() && u64_at(bytes@, 47 + 8 * v.len() as int) <= usize::MAX && u64_at(
                    bytes@,
                    47 + 8 * v.len() as int,
                ) != old(self).spec_dim() ==> r == Err::<(), KdTreeError>(
                    KdTreeError::InvalidIndexFile(
                        IndexFileProblem::BoundingBoxDimensionalityMismatch {
                            saved: u64_at(bytes@, 47 + 8 * v.len() as int) as usize,
                            expected: old(self).spec_dim() as usize,
                        },
                    ),
                ),
            forall|v: Seq<usize>, b: Seq<Interval>|
                #[trigger] saved_box(bytes@, old(self).spec_dim() as usize, v, b) && all_below(
                    v,
                    old(self).spec_dataset().spec_point_count(),
                ) && bbox_shape_error(b, old(self).spec_dim()) is Some ==> r == Err::<(), KdTreeError>(
                    bbox_shape_error(b, old(self).spec_dim())->0,
                ),
            forall|v: Seq<usize>, b: Seq<Interval>|
                #[trigger] saved_box(bytes@, old(self).spec_dim() as usize, v, b) && all_below(
                    v,
                    old(self).spec_dataset().spec_point_count(),
                ) && bbox_shape_error(b, old(self).spec_dim()) is None && 55 + 8 * v.len() + 16 * old(self).spec_dim()
                    < bytes@.len() && bytes@[55 + 8 * v.len() + 16 * old(self).spec_dim() as int] > 1 ==> r == Err::<(), KdTreeError>(
                    KdTreeError::InvalidIndexFile(
                        IndexFileProblem::InvalidRootPresence {
                            byte: bytes@[55 + 8 * v.len() + 16 * old(self).spec_dim() as int],
                        },
                    ),
                ),
            forall|v: Seq<usize>, b: Seq<Interval>|
                #[trigger] saved_box(bytes@, old(self).spec_dim() as usize, v, b) && all_below(
                    v,
                    old(self).spec_dataset().spec_point_count(),
                ) && bbox_shape_error(b, old(self).spec_dim()) is None && 56 + 8 * v.len() + 16 * old(self).spec_dim()
                    < bytes@.len() && bytes@[55 + 8 * v.len() + 16 * old(self).spec_dim() as int] == 1 && bytes@[56 + 8
                    * v.len() + 16 * old(self).spec_dim() as int] > 1 ==> r == Err::<(), KdTreeError>(
                    KdTreeError::InvalidIndexFile(
                        IndexFileProblem::InvalidNodeTag {
                            tag: bytes@[56 + 8 * v.len() + 16 * old(self).spec_dim() as int],
                        },
                    ),
                ),
            forall|leaf: usize, idx: KdTreeIndex|
                #[trigger] cut_short(index_bytes(old(self).spec_dim() as usize, leaf, idx), bytes@, 0) && idx.wf(
                    old(self).spec_dataset(),
                    old(self).spec_dim(),
                ) ==> r == Err::<(), KdTreeError>(KdTreeError::InvalidIndexFile(IndexFileProblem::UnexpectedEnd)),
            r matches Err(e) ==> e is InvalidIndexFile || e is IndexOutOfBounds || e is InvalidBoundingBox,
            r matches Err(KdTreeError::IndexOutOfBounds { .. }) ==> exists|v: Seq<usize>|
                #[trigger] saved_entries(bytes@, old(self).spec_dim() as usize, v) && !all_below(
                    v,
                    old(self).spec_dataset().spec_point_count(),
                ),
            r matches Err(KdTreeError::InvalidBoundingBox(_)) ==> exists|v: Seq<usize>, b: Seq<Interval>|
                #[trigger] saved_box(bytes@, old(self).spec_dim() as usize, v, b) && all_below(
                    v,
                    old(self).spec_dataset().spec_point_count(),
                ) && bbox_shape_error(b, old(self).spec_dim()) is Some,
            r matches Err(KdTreeError::IndexOutOfBounds { index, len }) ==> len == old(self).spec_dataset().spec_point_count()
                && index >= len,
            r matches Err(KdTreeError::InvalidBoundingBox(p)) ==> p is HighBelowLow,
    {
        match read_index(bytes, self.dataset, self.dim) {
            Ok((leaf, idx)) => {
                self.params.leaf_max_size = leaf;
                self.index = idx;
                Ok(())
            },
            Err(e) => Err(e),
        }
    }

    /// With `first_match` and a metric that obeys the pruning laws, exact
    /// nearest-neighbor searches agree: two trees over the same points of one
    /// dataset (such as a tree and the one that loaded its saved index), asked
    /// for `k` neighbors of queries that agree on the first `dim` components,
    /// give the same answer.
    pub proof fn lemma_searches_agree(
        &self,
        other: &Self,
        q1: Seq<i32>,
        q2: Seq<i32>,
        k: nat,
        items1: Seq<ResultItem>,
        items2: Seq<ResultItem>,
    )
        requires
            self.spec_dataset() == other.spec_dataset(),
            self.spec_metric() == other.spec_metric(),
            self.spec_dim() == other.spec_dim(),
            self.spec_index().indexed() == other.spec_index().indexed(),
            self.spec_metric().obeys_pruning_laws(),
            self.spec_dim() <= q1.len(),
            self.spec_dim() <= q2.len(),
            q1.take(self.spec_dim() as int) == q2.take(self.spec_dim() as int),
            knn_answer(
                items1,
                self.spec_index().indexed(),
                &self.spec_metric(),
                self.spec_dataset(),
                q1,
                self.spec_dim(),
                k,
                i128::MAX as int,
                1,
                true,
            ),
            knn_answer(
                items2,
                other.spec_index().indexed(),
                &other.spec_metric(),
                other.spec_dataset(),
                q2,
                other.spec_dim(),
                k,
                i128::MAX as int,
                1,
                true,
            ),
        ensures
            items1 == items2,
    {
        lemma_extra_components_ignored(
            items2,
            self.spec_index().indexed(),
            &self.spec_metric(),
            self.spec_dataset(),
            q1,
            q2,
            self.spec_dim(),
            k,
            i128::MAX as int,
            1,
            true,
        );
        lemma_knn_answer_unique(
            items1,
            items2,
            self.spec_index().indexed(),
            &self.spec_metric(),
            self.spec_dataset(),
            q1,
            self.spec_dim(),
            k,
            i128::MAX as int,
        );
    }

    /// What `save_index` writes loads back: into a tree of the same
    /// dimensionality over the same points, `load_index` succeeds on those
    /// bytes (followed by anything), and whatever it loads is the saved index
    /// with the saved leaf size.
    pub proof fn lemma_save_load_round_trip(&self, other: &Self, bytes: Seq<u8>)
        requires
            self.wf(),
            other.wf(),
            other.spec_dataset() == self.spec_dataset(),
            other.spec_dim() == self.spec_dim(),
            occurs_at(index_bytes(self.spec_dim() as usize, self.spec_params().leaf_max_size, self.spec_index()), bytes, 0),
        ensures
            exists|leaf: usize, idx: KdTreeIndex|
                #[trigger] encodes(bytes, other.spec_dim() as usize, leaf, idx) && idx.wf(other.spec_dataset(), other.spec_dim()),
            forall|leaf: usize, idx: KdTreeIndex|
                #[trigger] encodes(bytes, other.spec_dim() as usize, leaf, idx) ==> leaf == self.spec_params().leaf_max_size
                    && same_index(idx, self.spec_index()),
    {
        assert(encodes(bytes, other.spec_dim() as usize, self.params.leaf_max_size, self.index));
        assert forall|leaf: usize, idx: KdTreeIndex|
            #[trigger] encodes(bytes, other.spec_dim() as usize, leaf, idx) implies leaf == self.spec_params().leaf_max_size
                && same_index(idx, self.spec_index()) by {
            lemma_save_load_round_trip(bytes, self.dim, self.params.leaf_max_size, self.index, leaf, idx);
        }
    }

    /// Finds all point indices inside `bbox`. Bounds are inclusive.
    pub fn find_within_box(&self, bbox: &[Interval]) -> (r: Result<Vec<usize>>)
        requires
            self.wf(),
        ensures
            bbox_shape_error(bbox@, self.spec_dim()) matches Some(e) ==> r == Err::<Vec<usize>, KdTreeError>(e),
            bbox_shape_error(bbox@, self.spec_dim()) is None && self.spec_index().size == 0 ==> (r matches Ok(found) && found@.len() == 0),
            bbox_shape_error(bbox@, self.spec_dim()) is None && self.spec_index().size != 0 && self.spec_index().root_node is None ==> r
                == Err::<Vec<usize>, KdTreeError>(KdTreeError::IndexNotBuilt),
            bbox_shape_error(bbox@, self.spec_dim()) is None && self.spec_index().size != 0 && self.spec_index().root_node is Some ==> (
            r matches Ok(found) && {
                &&& found@.no_duplicates()
                &&& range_set(found@, 0, found@.len() as int) == self.spec_index().indexed().filter(
                    |c: int| in_box(self.spec_dataset(), c, bbox@, self.spec_dim()),
                )
            }),
    {
        self.index.find_within_box(self.dataset, self.dim, bbox)
    }
}

} // verus!