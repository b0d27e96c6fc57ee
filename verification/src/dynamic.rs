use vstd::prelude::*;

use std::collections::HashMap;

use crate::dataset::KdTreeDataset;
use crate::error::{KdTreeError, Result};
use crate::metric::{max_dim, DistanceMetric};
use crate::result_set::{sorted_by_distance, Collector, KnnResultSet, RadiusResultSet, ResultItem, RknnResultSet};
use crate::search::{
    beyond, dist_of, holds_index, lemma_range_set_extend, loses_tie, lemma_sort_keeps_inv, range_set,
    filter_view, is_active, knn_answer, lemma_inv_empty, lemma_knn_from_inv, lemma_radius_from_inv, radius_answer,
    search_inv,
};
use crate::tree::{extends, lemma_index_wf_extends, bbox_shape_error, zero_bbox, Interval, KdTreeIndex, KdTreeParams, SearchParameters};
use vstd::arithmetic::power2::pow2;
use vstd::std_specs::hash::{builds_valid_hashers, obeys_key_model};

verus! {

broadcast use vstd::std_specs::hash::group_hash_axioms;


/// `floor(log2(x))` for `x >= 1`.
pub open spec fn log2(x: nat) -> nat
    decreases x,
{
    if x <= 1 {
        0
    } else {
        1 + log2(x / 2)
    }
}

/// The number of trailing one bits of `x`.
pub open spec fn trailing_ones(x: nat) -> nat
    decreases x,
{
    if x % 2 == 1 {
        1 + trailing_ones(x / 2)
    } else {
        0
    }
}

pub(crate) proof fn lemma_leading_zeros_log2(x: u64)
    requires
        x >= 1,
    ensures
        vstd::std_specs::bits::u64_leading_zeros(x) == 63 - log2(x as nat),
    decreases x,
{
    reveal(vstd::std_specs::bits::u64_leading_zeros);
    if x >= 2 {
        lemma_leading_zeros_log2(x / 2);
    } else {
        assert(vstd::std_specs::bits::u64_leading_zeros(0) == 64);
    }
}

/// `floor(log2(value))`: the position of the highest set bit.
pub fn floor_log2(value: usize) -> (r: usize)
    requires
        value >= 1,
    ensures
        r == log2(value as nat),
        r < 64,
{
    proof {
        lemma_leading_zeros_log2(value as u64);
        vstd::arithmetic::power2::lemma2_to64();
        lemma_log2_bound(value as nat, 64);
    }
    let lz = (value as u64).leading_zeros();
    (63 - lz) as usize
}

pub(crate) proof fn lemma_log2_bound(x: nat, k: nat)
    requires
        1 <= x < vstd::arithmetic::power2::pow2(k),
    ensures
        log2(x) < k,
        vstd::arithmetic::power2::pow2(log2(x)) <= x < vstd::arithmetic::power2::pow2(log2(x) + 1),
    decreases x,
{
    vstd::arithmetic::power2::lemma_pow2_unfold(log2(x) + 1);
    if k == 0 {
        vstd::arithmetic::power2::lemma2_to64();
    } else {
        vstd::arithmetic::power2::lemma_pow2_unfold(k);
    }
    if x >= 2 {
        lemma_log2_bound(x / 2, (k - 1) as nat);
        vstd::arithmetic::power2::lemma_pow2_unfold(log2(x));
    } else {
        vstd::arithmetic::power2::lemma2_to64();
    }
}

/// A number below `2^k` has at most `k` trailing ones.
proof fn lemma_trailing_ones_le(x: nat, k: nat)
    requires
        x < vstd::arithmetic::power2::pow2(k),
    ensures
        trailing_ones(x) <= k,
    decreases x,
{
    if x % 2 == 1 {
        if k == 0 {
            vstd::arithmetic::power2::lemma2_to64();
        } else {
            vstd::arithmetic::power2::lemma_pow2_unfold(k);
            lemma_trailing_ones_le(x / 2, (k - 1) as nat);
        }
    }
}

/// A number whose lowest `t` bits are set is at least `2^t - 1`.
proof fn lemma_trailing_ones_bound(x: nat)
    ensures
        x + 1 >= vstd::arithmetic::power2::pow2(trailing_ones(x)),
    decreases x,
{
    if x % 2 == 1 {
        lemma_trailing_ones_bound(x / 2);
        vstd::arithmetic::power2::lemma_pow2_unfold(trailing_ones(x));
    } else {
        vstd::arithmetic::power2::lemma2_to64();
    }
}

/// Bit `t` of `x`.
pub open spec fn bit(x: nat, t: nat) -> bool {
    (x / pow2(t)) % 2 == 1
}

/// Bit `t + 1` of `x` is bit `t` of `x / 2`.
proof fn lemma_bit_shift(x: nat, t: nat)
    ensures
        bit(x, t + 1) == bit(x / 2, t),
{
    vstd::arithmetic::power2::lemma_pow2_unfold(t + 1);
    vstd::arithmetic::power2::lemma_pow2_pos(t);
    vstd::arithmetic::div_mod::lemma_div_denominator(x as int, 2, pow2(t) as int);
}

/// Adding one to `x` clears its trailing one bits, sets the bit above them,
/// and keeps the higher bits.
proof fn lemma_bits_increment(x: nat, t: nat)
    ensures
        t < trailing_ones(x) ==> bit(x, t) && !bit(x + 1, t),
        t == trailing_ones(x) ==> !bit(x, t) && bit(x + 1, t),
        t > trailing_ones(x) ==> bit(x + 1, t) == bit(x, t),
    decreases x,
{
    vstd::arithmetic::power2::lemma2_to64();
    if t == 0 {
    } else {
        let u = (t - 1) as nat;
        lemma_bit_shift(x, u);
        lemma_bit_shift(x + 1, u);
        if x % 2 == 1 {
            assert((x + 1) / 2 == x / 2 + 1);
            lemma_bits_increment(x / 2, u);
        } else {
            assert((x + 1) / 2 == x / 2);
        }
    }
}

/// No bit of zero is set.
proof fn lemma_bits_zero(t: nat)
    ensures
        !bit(0, t),
{
    vstd::arithmetic::power2::lemma_pow2_pos(t);
}

/// The powers of two below `2^p` add up to `2^p - 1`: one more doubles.
proof fn lemma_pow2_step(p: nat)
    ensures
        pow2(p + 1) == 2 * pow2(p),
        pow2(p) >= 1,
{
    vstd::arithmetic::power2::lemma_pow2_unfold(p + 1);
    vstd::arithmetic::power2::lemma_pow2_pos(p);
}

/// The position of the lowest zero bit of `num`.
fn first_zero_bit(num: usize) -> (pos: usize)
    ensures
        pos == trailing_ones(num as nat),
{
    let mut n = num;
    let mut pos: usize = 0;
    proof {
        vstd::arithmetic::power2::lemma2_to64();
        lemma_trailing_ones_le(num as nat, 64);
    }
    while n & 1 == 1
        invariant
            pos + trailing_ones(n as nat) == trailing_ones(num as nat),
            trailing_ones(num as nat) <= 64,
        decreases n,
    {
        assert((n & 1 == 1) == (n % 2 == 1)) by (bit_vector);
        assert(n >> 1 == n / 2) by (bit_vector);
        n = n >> 1;
        pos = pos + 1;
    }
    assert((n & 1 == 1) == (n % 2 == 1)) by (bit_vector);
    pos
}


/// What inserting point `idx` does to the activity flags of the points
/// `[0, flags.len())`: a removed point is reactivated; otherwise only the next
/// point can be added, and only while fewer than `max` points exist.
pub open spec fn insert_step(flags: Seq<bool>, max: nat, idx: nat) -> Result<Seq<bool>> {
    if idx < flags.len() && !flags[idx as int] {
        Ok(flags.update(idx as int, true))
    } else if idx != flags.len() {
        Err(KdTreeError::NonContiguousInsertion { expected: flags.len() as usize, got: idx as usize })
    } else if flags.len() >= max {
        Err(KdTreeError::MaximumPointCountExceeded { maximum_point_count: max as usize })
    } else {
        Ok(flags.push(true))
    }
}

/// The flags after inserting the points `start, start + 1, ..., end` in turn,
/// and the error that stopped the insertions, if one did.
pub open spec fn insert_range(flags: Seq<bool>, max: nat, start: nat, end: nat) -> (Seq<bool>, Option<KdTreeError>)
    decreases end + 1 - start,
{
    if start > end {
        (flags, None)
    } else {
        match insert_step(flags, max, start) {
            Err(e) => (flags, Some(e)),
            Ok(next) => insert_range(next, max, start + 1, end),
        }
    }
}

/// `n` active points.
pub open spec fn all_active(n: nat) -> Seq<bool> {
    Seq::new(n, |i: int| true)
}

/// The number of `true` entries of `s`.
pub open spec fn count_true(s: Seq<bool>) -> nat
    decreases s.len(),
{
    if s.len() == 0 {
        0
    } else {
        count_true(s.drop_last()) + if s.last() {
            1nat
        } else {
            0nat
        }
    }
}

/// The error of the box a dataset offers for `dim` dimensions, if it offers a bad one.
pub open spec fn dataset_box_error<D: KdTreeDataset>(ds: &D, dim: nat) -> Option<KdTreeError> {
    match ds.spec_bbox() {
        Some(b) => bbox_shape_error(b, dim),
        None => None,
    }
}

/// Inserting the next points in order into `m` active points adds them all up
/// to `max` points, and fails at the first one beyond.
proof fn lemma_insert_fresh(m: nat, max: nat, end: nat)
    requires
        m <= max,
        m <= end + 1,
    ensures
        end < max ==> insert_range(all_active(m), max, m, end) == (all_active(end + 1), None::<KdTreeError>),
        end >= max ==> insert_range(all_active(m), max, m, end) == (
            all_active(max),
            Some(KdTreeError::MaximumPointCountExceeded { maximum_point_count: max as usize }),
        ),
    decreases end + 1 - m,
{
    if m > end {
        assert(all_active(m) =~= all_active(end + 1));
    } else if m >= max {
        assert(all_active(m) =~= all_active(max));
    } else {
        assert(all_active(m).push(true) =~= all_active(m + 1));
        lemma_insert_fresh(m + 1, max, end);
    }
}

/// Every point `[0, n)` lies in exactly one of `indices`, which hold no other point.
pub open spec fn partitions(indices: Seq<KdTreeIndex>, n: nat) -> bool {
    &&& forall|t: int, c: int| 0 <= t < indices.len() && #[trigger] indices[t].indexed().contains(c) ==> 0 <= c < n
    &&& forall|t1: int, t2: int, c: int|
        0 <= t1 < indices.len() && 0 <= t2 < indices.len() && t1 != t2 && #[trigger] indices[t1].indexed().contains(c)
            ==> !#[trigger] indices[t2].indexed().contains(c)
    &&& forall|c: int| 0 <= c < n ==> #[trigger] covered(indices, c)
}

/// Some index of `indices` holds point `c`.
pub open spec fn covered(indices: Seq<KdTreeIndex>, c: int) -> bool {
    exists|t: int| 0 <= t < indices.len() && #[trigger] indices[t].indexed().contains(c)
}

/// Dynamic KD-tree: a logarithmic set of static indices over the points of a
/// growing dataset, with lazy removal. Static index `t` holds `2^t` points
/// when bit `t` of the number of points inserted is set; inserting a point
/// merges the indices below the lowest clear bit into the index at that bit.
pub struct DynamicKdTree<M: DistanceMetric> {
    metric: M,
    params: KdTreeParams,
    dim: usize,
    tree_count: usize,
    maximum_point_count: usize,
    point_count: usize,
    tree_index: Vec<Option<usize>>,
    removed_points: HashMap<usize, usize>,
    indices: Vec<KdTreeIndex>,
}

impl<M: DistanceMetric> DynamicKdTree<M> {
    /// Whether each point inserted so far is active (`true`) or removed.
    pub closed spec fn spec_flags(&self) -> Seq<bool> {
        self.tree_index@.map_values(|e: Option<usize>| e is Some)
    }

    /// The number of points inserted so far.
    pub closed spec fn spec_point_count(&self) -> nat {
        self.point_count as nat
    }

    /// The active points.
    pub open spec fn active_set(&self) -> Set<int> {
        Set::new(|c: int| 0 <= c < self.spec_flags().len() && self.spec_flags()[c])
    }

    /// The dimensionality of the tree.
    pub closed spec fn spec_dim(&self) -> nat {
        self.dim as nat
    }

    /// The metric of searches.
    pub closed spec fn spec_metric(&self) -> M {
        self.metric
    }

    /// The parameters of the static indices.
    pub closed spec fn spec_params(&self) -> KdTreeParams {
        self.params
    }

    /// The most points the tree takes.
    pub closed spec fn spec_max(&self) -> nat {
        self.maximum_point_count as nat
    }

    /// The static indices.
    pub closed spec fn spec_indices(&self) -> Seq<KdTreeIndex> {
        self.indices@
    }

    /// Every static index is searchable: it is empty or has a root.
    pub open spec fn all_built(&self) -> bool {
        forall|t: int|
            0 <= t < self.spec_indices().len() ==> (#[trigger] self.spec_indices()[t]).size == 0
                || self.spec_indices()[t].root_node is Some
    }

    /// The parts of the invariant that hold while indices are being merged.
    pub closed spec fn structure_ok<D: KdTreeDataset>(&self, ds: &D) -> bool {
        &&& 1 <= self.dim <= max_dim()
        &&& self.metric.spec_accepts_size(self.dim as nat)
        &&& self.params.leaf_max_size > 0
        &&& self.maximum_point_count >= 1
        &&& self.tree_count == self.indices@.len()
        &&& self.tree_count == log2(self.maximum_point_count as nat) + 1
        &&& self.maximum_point_count < pow2(self.tree_count as nat)
        &&& self.point_count <= self.maximum_point_count
        &&& self.tree_index@.len() == self.point_count
        &&& ds.spec_point_count() > 0 ==> self.dim <= ds.spec_point_dim()
        &&& forall|t: int| 0 <= t < self.indices@.len() ==> (#[trigger] self.indices@[t]).wf(ds, self.dim as nat)
        &&& partitions(self.indices@, self.point_count as nat)
        &&& forall|i: usize|
            #[trigger] self.removed_points@.contains_key(i) <==> (i < self.point_count && self.tree_index@[i as int] is None)
    }

    /// Every static index reports the number of its entries.
    pub open spec fn sizes_ok(&self) -> bool {
        forall|t: int|
            0 <= t < self.spec_indices().len() ==> (#[trigger] self.spec_indices()[t]).size == self.spec_indices()[t].v_acc@.len()
    }

    /// Static index `t` holds `2^t` points when bit `t` of the number of
    /// points inserted is set, and none otherwise.
    pub open spec fn layout_ok(&self) -> bool {
        forall|t: int|
            0 <= t < self.spec_indices().len() ==> (#[trigger] self.spec_indices()[t]).v_acc@.len() == if bit(
                self.spec_point_count(),
                t as nat,
            ) {
                pow2(t as nat)
            } else {
                0
            }
    }

    /// The tree is consistent with the points of `ds`: the static indices
    /// partition the inserted points along the binary digits of their number,
    /// and the removed points are the inactive ones.
    pub open spec fn wf<D: KdTreeDataset>(&self, ds: &D) -> bool {
        self.structure_ok(ds) && self.sizes_ok() && self.layout_ok()
    }

    /// Creates a dynamic KD-tree over `dataset` for at most
    /// `maximum_point_count` points (at least one), and inserts the points the
    /// dataset already has.
    pub fn new<D: KdTreeDataset>(
        dim: usize,
        dataset: &D,
        metric: M,
        params: KdTreeParams,
        maximum_point_count: usize,
    ) -> (res: Result<Self>)
        requires
            dim <= max_dim(),
            dim > 0 ==> metric.spec_accepts_size(dim as nat),
            dim > 0 && params.leaf_max_size > 0 && dataset.spec_point_count() > 0 ==> dim <= dataset.spec_point_dim(),
        ensures
            dim == 0 ==> res == Err::<Self, KdTreeError>(KdTreeError::InvalidDimensionality),
            dim > 0 && params.leaf_max_size == 0 ==> res == Err::<Self, KdTreeError>(KdTreeError::InvalidLeafMaxSize),
            dim > 0 && params.leaf_max_size > 0 ==> ({
                let max: nat = if maximum_point_count == 0 { 1 } else { maximum_point_count as nat };
                let n = dataset.spec_point_count();
                &&& n > max ==> res == Err::<Self, KdTreeError>(
                    KdTreeError::MaximumPointCountExceeded { maximum_point_count: max as usize },
                )
                &&& 0 < n <= max && dataset_box_error(dataset, dim as nat) is Some ==> res == Err::<Self, KdTreeError>(
                    dataset_box_error(dataset, dim as nat)->0,
                )
                &&& n <= max && (n == 0 || dataset_box_error(dataset, dim as nat) is None) ==> (res matches Ok(t) && {
                    &&& t.wf(dataset)
                    &&& t.all_built()
                    &&& t.spec_flags() == all_active(n)
                    &&& t.spec_point_count() == n
                    &&& t.spec_dim() == dim
                    &&& t.spec_metric() == metric
                    &&& t.spec_params() == params
                    &&& t.spec_max() == max
                })
            }),
    {
        if dim == 0 {
            return Err(KdTreeError::InvalidDimensionality);
        }
        if params.leaf_max_size == 0 {
            return Err(KdTreeError::InvalidLeafMaxSize);
        }
        let safe_max: usize = if maximum_point_count == 0 { 1 } else { maximum_point_count };
        let log = floor_log2(safe_max);
        proof {
            vstd::arithmetic::power2::lemma2_to64();
            lemma_log2_bound(safe_max as nat, 64);
        }
        let tree_count = log + 1;
        let indices = init_indices(tree_count, dim);
        let mut this = DynamicKdTree {
            metric,
            params,
            dim,
            tree_count,
            maximum_point_count: safe_max,
            point_count: 0,
            tree_index: Vec::new(),
            removed_points: HashMap::new(),
            indices,
        };
        proof {
            assert(obeys_key_model::<usize>());
            assert forall|t: int| 0 <= t < this.indices@.len() implies (#[trigger] this.indices@[t]).wf(dataset, dim as nat) by {
                assert(this.indices@[t].v_acc@.len() == 0);
                assert(this.indices@[t].root_bbox@[0] == Interval { low: 0, high: 0 });
            }
            assert forall|t: int, c: int| 0 <= t < this.indices@.len() && #[trigger] this.indices@[t].indexed().contains(c)
                implies false by {
                assert(this.indices@[t].v_acc@.len() == 0);
            }
            assert(this.spec_flags() =~= all_active(0));
            assert forall|t: int| 0 <= t < this.indices@.len() implies (#[trigger] this.indices@[t]).v_acc@.len() == if bit(
                0,
                t as nat,
            ) {
                pow2(t as nat)
            } else {
                0
            } by {
                lemma_bits_zero(t as nat);
            }
        }
        let initial = dataset.kdtree_get_point_count();
        if initial > 0 {
            proof {
                lemma_insert_fresh(0, safe_max as nat, (initial - 1) as nat);
            }
            match this.add_points(dataset, 0, initial - 1) {
                Ok(()) => {},
                Err(e) => {
                    return Err(e);
                },
            }
        }
        Ok(this)
    }

    /// Dimensionality of the tree.
    pub fn dim(&self) -> (r: usize)
        ensures
            r == self.spec_dim(),
    {
        self.dim
    }

    /// Number of points inserted so far, removed ones included.
    pub fn point_count(&self) -> (r: usize)
        ensures
            r == self.spec_point_count(),
    {
        self.point_count
    }

    /// Number of active points.
    pub fn active_count(&self) -> (r: usize)
        ensures
            r == count_true(self.spec_flags()),
    {
        let mut count: usize = 0;
        let mut i: usize = 0;
        while i < self.tree_index.len()
            invariant
                0 <= i <= self.tree_index@.len(),
                count == count_true(self.spec_flags().take(i as int)),
                count <= i,
            decreases self.tree_index@.len() - i,
        {
            assert(self.spec_flags().take(i as int + 1).drop_last() =~= self.spec_flags().take(i as int));
            if self.tree_index[i].is_some() {
                count = count + 1;
            }
            i = i + 1;
        }
        assert(self.spec_flags().take(i as int) =~= self.spec_flags());
        count
    }

    /// The static indices.
    pub fn all_indices(&self) -> (r: &[KdTreeIndex])
        ensures
            r@ == self.spec_indices(),
    {
        self.indices.as_slice()
    }

    /// Lazily removes point `idx`: it stops taking part in searches until it is
    /// inserted again. Points never inserted, and removed ones, are left as they are.
    pub fn remove_point<D: KdTreeDataset>(&mut self, dataset: &D, idx: usize)
        requires
            old(self).wf(dataset),
        ensures
            final(self).wf(dataset),
            final(self).spec_flags() == if idx < old(self).spec_point_count() {
                old(self).spec_flags().update(idx as int, false)
            } else {
                old(self).spec_flags()
            },
            final(self).spec_point_count() == old(self).spec_point_count(),
            final(self).spec_indices() == old(self).spec_indices(),
            final(self).spec_dim() == old(self).spec_dim(),
            final(self).spec_metric() == old(self).spec_metric(),
            final(self).spec_params() == old(self).spec_params(),
            final(self).spec_max() == old(self).spec_max(),
    {
        if idx >= self.point_count {
            return;
        }
        proof {
            assert(obeys_key_model::<usize>());
            assert(builds_valid_hashers::<std::hash::RandomState>());
        }
        match self.tree_index[idx] {
            Some(tree_id) => {
                self.removed_points.insert(idx, tree_id);
                self.tree_index.set(idx, None);
            },
            None => {
                proof {
                    assert(old(self).spec_flags()[idx as int] == false);
                    assert(old(self).spec_flags().update(idx as int, false) =~= old(self).spec_flags());
                }
            },
        }
        proof {
            assert(self.spec_flags() =~= if idx < old(self).spec_point_count() {
                old(self).spec_flags().update(idx as int, false)
            } else {
                old(self).spec_flags()
            });
        }
    }
}

/// The points of two concatenated entry lists are those of both, and the
/// concatenation of lists without repeats and without common points has none.
proof fn lemma_concat_entries(a: Seq<usize>, b: Seq<usize>)
    ensures
        range_set(a + b, 0, (a + b).len() as int) == range_set(a, 0, a.len() as int).union(range_set(b, 0, b.len() as int)),
        a.no_duplicates() && b.no_duplicates() && (forall|c: int|
            #[trigger] range_set(a, 0, a.len() as int).contains(c) ==> !range_set(b, 0, b.len() as int).contains(c))
            ==> (a + b).no_duplicates(),
{
    let ab = a + b;
    let la = a.len() as int;
    assert forall|c: int| #[trigger] range_set(ab, 0, ab.len() as int).contains(c) implies range_set(a, 0, la).union(
        range_set(b, 0, b.len() as int),
    ).contains(c) by {
        let k = choose|k: int| 0 <= k < ab.len() && ab[k] as int == c;
        if k < la {
            assert(a[k] == ab[k]);
        } else {
            assert(b[k - la] == ab[k]);
        }
    }
    assert forall|c: int| #[trigger] range_set(a, 0, la).union(range_set(b, 0, b.len() as int)).contains(c) implies range_set(
        ab,
        0,
        ab.len() as int,
    ).contains(c) by {
        if range_set(a, 0, la).contains(c) {
            let k = choose|k: int| 0 <= k < la && a[k] as int == c;
            assert(ab[k] == a[k]);
        } else {
            let k = choose|k: int| 0 <= k < b.len() && b[k] as int == c;
            assert(ab[k + la] == b[k]);
        }
    }
    assert(range_set(ab, 0, ab.len() as int) =~= range_set(a, 0, la).union(range_set(b, 0, b.len() as int)));
    if a.no_duplicates() && b.no_duplicates() && (forall|c: int|
        #[trigger] range_set(a, 0, a.len() as int).contains(c) ==> !range_set(b, 0, b.len() as int).contains(c)) {
        assert forall|i: int, j: int| 0 <= i < ab.len() && 0 <= j < ab.len() && i != j implies ab[i] != ab[j] by {
            if i < la && j >= la {
                assert(ab[i] == a[i]);
                assert(ab[j] == b[j - la]);
                assert(range_set(a, 0, la).contains(a[i] as int));
                assert(range_set(b, 0, b.len() as int).contains(b[j - la] as int));
            } else if i >= la && j < la {
                assert(ab[j] == a[j]);
                assert(ab[i] == b[i - la]);
                assert(range_set(a, 0, la).contains(a[j] as int));
                assert(range_set(b, 0, b.len() as int).contains(b[i - la] as int));
            } else if i < la {
                assert(ab[i] == a[i] && ab[j] == a[j]);
            } else {
                assert(ab[i] == b[i - la] && ab[j] == b[j - la]);
            }
        }
    }
}

/// Appending an entry adds its point.
proof fn lemma_push_entry(v: Seq<usize>, p: usize)
    ensures
        range_set(v.push(p), 0, v.len() + 1 as int) == range_set(v, 0, v.len() as int).insert(p as int),
        v.no_duplicates() && !range_set(v, 0, v.len() as int).contains(p as int) ==> v.push(p).no_duplicates(),
{
    assert(range_set(v.push(p), 0, v.len() as int) =~= range_set(v, 0, v.len() as int)) by {
        assert forall|c: int| #[trigger] range_set(v, 0, v.len() as int).contains(c) implies range_set(
            v.push(p),
            0,
            v.len() as int,
        ).contains(c) by {
            let k = choose|k: int| 0 <= k < v.len() && v[k] as int == c;
            assert(v.push(p)[k] == v[k]);
        }
    }
    lemma_range_set_extend(v.push(p), 0, v.len() as int);
    if v.no_duplicates() && !range_set(v, 0, v.len() as int).contains(p as int) {
        assert forall|i: int, j: int| 0 <= i < v.len() + 1 && 0 <= j < v.len() + 1 && i != j implies v.push(p)[i] != v.push(
            p,
        )[j] by {
            if i == v.len() {
                assert(v.push(p)[j] == v[j]);
                assert(range_set(v, 0, v.len() as int).contains(v[j] as int));
            } else if j == v.len() {
                assert(v.push(p)[i] == v[i]);
                assert(range_set(v, 0, v.len() as int).contains(v[i] as int));
            }
        }
    }
}

impl<M: DistanceMetric> DynamicKdTree<M> {
    /// The configuration and the inserted points are those of `other`.
    closed spec fn same_shape(&self, other: &Self) -> bool {
        &&& self.metric == other.metric
        &&& self.params == other.params
        &&& self.dim == other.dim
        &&& self.tree_count == other.tree_count
        &&& self.maximum_point_count == other.maximum_point_count
        &&& self.point_count == other.point_count
        &&& self.indices@.len() == other.indices@.len()
        &&& self.spec_flags() == other.spec_flags()
    }

    /// Moves the entries of static index `src` into index `dst`, recording the
    /// new place of each moved point.
    fn move_tree<D: KdTreeDataset>(&mut self, dataset: &D, src: usize, dst: usize)
        requires
            old(self).structure_ok(dataset),
            src < dst < old(self).indices@.len(),
        ensures
            final(self).structure_ok(dataset),
            final(self).same_shape(old(self)),
            forall|t: int| 0 <= t < final(self).indices@.len() && t != src && t != dst ==> final(self).indices@[t] == old(self).indices@[t],
            final(self).indices@[dst as int].v_acc@.len() == old(self).indices@[dst as int].v_acc@.len() + old(
                self,
            ).indices@[src as int].v_acc@.len(),
            final(self).indices@[src as int].v_acc@.len() == 0,
    {
        let ghost old_src = self.indices@[src as int];
        let ghost old_dst = self.indices@[dst as int];
        proof {
            assert(obeys_key_model::<usize>());
            assert(builds_valid_hashers::<std::hash::RandomState>());
        }
        let moved = self.indices[src].take_entries();
        let mut j: usize = 0;
        proof {
            assert(old_dst.v_acc@ + moved@.take(0) =~= old_dst.v_acc@);
        }
        while j < moved.len()
            invariant
                0 <= j <= moved@.len(),
                moved@ == old_src.v_acc@,
                old_src == old(self).indices@[src as int],
                old_dst == old(self).indices@[dst as int],
                src < dst < old(self).indices@.len(),
                old(self).structure_ok(dataset),
                self.indices@.len() == old(self).indices@.len(),
                forall|t: int| 0 <= t < self.indices@.len() && t != src && t != dst ==> self.indices@[t] == old(self).indices@[t],
                self.indices@[src as int].v_acc@.len() == 0,
                self.indices@[src as int].root_node is None,
                self.indices@[src as int].root_bbox@ == old_src.root_bbox@,
                self.indices@[dst as int].v_acc@ == old_dst.v_acc@ + moved@.take(j as int),
                self.indices@[dst as int].root_node is None || (j == 0 && self.indices@[dst as int] == old_dst),
                self.indices@[dst as int].root_bbox@ == old_dst.root_bbox@,
                self.metric == old(self).metric,
                self.params == old(self).params,
                self.dim == old(self).dim,
                self.tree_count == old(self).tree_count,
                self.maximum_point_count == old(self).maximum_point_count,
                self.point_count == old(self).point_count,
                self.tree_index@.len() == old(self).tree_index@.len(),
                forall|i: int| 0 <= i < self.tree_index@.len() ==> (#[trigger] self.tree_index@[i] is Some) == (old(
                    self,
                ).tree_index@[i] is Some),
                self.removed_points@.dom() == old(self).removed_points@.dom(),
            decreases moved@.len() - j,
        {
            let p = moved[j];
            proof {
                assert(old_src.indexed().contains(p as int));
                assert(old(self).indices@[src as int].indexed().contains(p as int));
            }
            self.indices[dst].push_entry(p);
            proof {
                assert(moved@.take(j as int + 1) =~= moved@.take(j as int).push(p));
                assert(old_dst.v_acc@ + moved@.take(j as int + 1) =~= (old_dst.v_acc@ + moved@.take(j as int)).push(p));
            }
            if p < self.tree_index.len() && self.tree_index[p].is_some() {
                self.tree_index.set(p, Some(dst));
            } else {
                proof {
                    assert(old(self).removed_points@.contains_key(p));
                }
                self.removed_points.insert(p, dst);
                proof {
                    assert(self.removed_points@.dom() =~= old(self).removed_points@.dom());
                }
            }
            j = j + 1;
        }
        proof {
            assert(moved@.take(moved@.len() as int) =~= moved@);
            let new_dst = self.indices@[dst as int];
            lemma_concat_entries(old_dst.v_acc@, old_src.v_acc@);
            assert forall|c: int| #[trigger] range_set(old_dst.v_acc@, 0, old_dst.v_acc@.len() as int).contains(c) implies !range_set(
                old_src.v_acc@,
                0,
                old_src.v_acc@.len() as int,
            ).contains(c) by {
                assert(old(self).indices@[dst as int].indexed().contains(c));
                assert(!old(self).indices@[src as int].indexed().contains(c));
            }
            assert(new_dst.indexed() == old_dst.indexed().union(old_src.indexed()));
            assert(self.indices@[src as int].indexed() =~= Set::<int>::empty());
            assert forall|t: int| 0 <= t < self.indices@.len() implies (#[trigger] self.indices@[t]).wf(dataset, self.dim as nat) by {
                assert(old(self).indices@[t].wf(dataset, self.dim as nat));
                if t == dst as int && moved@.len() > 0 {
                    assert(old_src.wf(dataset, self.dim as nat));
                    assert forall|k: int| 0 <= k < new_dst.v_acc@.len() implies (#[trigger] new_dst.v_acc@[k]) < dataset.spec_point_count() by {
                        if k < old_dst.v_acc@.len() {
                            assert(new_dst.v_acc@[k] == old_dst.v_acc@[k]);
                        } else {
                            assert(new_dst.v_acc@[k] == old_src.v_acc@[k - old_dst.v_acc@.len()]);
                        }
                    }
                }
            }
            assert forall|t: int, c: int| 0 <= t < self.indices@.len() && #[trigger] self.indices@[t].indexed().contains(c) implies 0
                <= c < self.point_count by {
                if t == dst as int {
                    if old_src.indexed().contains(c) {
                        assert(old(self).indices@[src as int].indexed().contains(c));
                    } else {
                        assert(old(self).indices@[dst as int].indexed().contains(c));
                    }
                } else {
                    assert(old(self).indices@[t].indexed().contains(c));
                }
            }
            assert forall|t1: int, t2: int, c: int|
                0 <= t1 < self.indices@.len() && 0 <= t2 < self.indices@.len() && t1 != t2
                    && #[trigger] self.indices@[t1].indexed().contains(c) implies !#[trigger] self.indices@[t2].indexed().contains(
                c,
            ) by {
                let o = old(self).indices@;
                if t1 == src as int || t2 == src as int {
                } else if t1 == dst as int {
                    if self.indices@[t2].indexed().contains(c) {
                        assert(o[t2].indexed().contains(c));
                        if o[src as int].indexed().contains(c) {
                        } else {
                            assert(o[dst as int].indexed().contains(c));
                        }
                    }
                } else if t2 == dst as int {
                    assert(o[t1].indexed().contains(c));
                    if self.indices@[t2].indexed().contains(c) {
                        if o[src as int].indexed().contains(c) {
                        } else {
                            assert(o[dst as int].indexed().contains(c));
                        }
                    }
                } else {
                    assert(o[t1].indexed().contains(c));
                }
            }
            assert forall|c: int| 0 <= c < self.point_count implies covered(self.indices@, c) by {
                assert(covered(old(self).indices@, c));
                let t0 = choose|t: int| 0 <= t < old(self).indices@.len() && #[trigger] old(self).indices@[t].indexed().contains(c);
                if t0 == src as int || t0 == dst as int {
                    assert(self.indices@[dst as int].indexed().contains(c));
                } else {
                    assert(self.indices@[t0].indexed().contains(c));
                }
            }
            assert forall|i: usize| #[trigger] self.removed_points@.contains_key(i) <==> (i < self.point_count
                && self.tree_index@[i as int] is None) by {
                assert(old(self).removed_points@.contains_key(i) <==> (i < self.point_count && old(self).tree_index@[i as int] is None));
                if i < self.point_count {
                    assert(self.tree_index@[i as int] is Some == old(self).tree_index@[i as int] is Some);
                }
            }
            assert(self.spec_flags() =~= old(self).spec_flags());
        }
    }

    /// Moves the entries of the static indices `[0, pos)` into index `pos`.
    fn merge_into<D: KdTreeDataset>(&mut self, dataset: &D, pos: usize)
        requires
            old(self).structure_ok(dataset),
            pos < old(self).indices@.len(),
            forall|u: int| 0 <= u < pos ==> (#[trigger] old(self).indices@[u]).v_acc@.len() == pow2(u as nat),
            old(self).indices@[pos as int].v_acc@.len() == 0,
        ensures
            final(self).structure_ok(dataset),
            final(self).same_shape(old(self)),
            forall|t: int| pos < t < final(self).indices@.len() ==> final(self).indices@[t] == old(self).indices@[t],
            forall|u: int| 0 <= u < pos ==> (#[trigger] final(self).indices@[u]).v_acc@.len() == 0,
            final(self).indices@[pos as int].v_acc@.len() + 1 == pow2(pos as nat),
    {
        let mut t: usize = 0;
        proof {
            vstd::arithmetic::power2::lemma2_to64();
        }
        while t < pos
            invariant
                0 <= t <= pos,
                pos < old(self).indices@.len(),
                self.structure_ok(dataset),
                self.same_shape(old(self)),
                forall|u: int| pos < u < self.indices@.len() ==> self.indices@[u] == old(self).indices@[u],
                forall|u: int| t <= u < pos ==> self.indices@[u] == old(self).indices@[u],
                forall|u: int| t <= u < pos ==> (#[trigger] old(self).indices@[u]).v_acc@.len() == pow2(u as nat),
                forall|u: int| 0 <= u < t ==> (#[trigger] self.indices@[u]).v_acc@.len() == 0,
                self.indices@[pos as int].v_acc@.len() + 1 == pow2(t as nat),
            decreases pos - t,
        {
            proof {
                lemma_pow2_step(t as nat);
                assert(self.indices@[t as int] == old(self).indices@[t as int]);
            }
            self.move_tree(dataset, t, pos);
            t = t + 1;
        }
    }
}

impl<M: DistanceMetric> DynamicKdTree<M> {
    /// Inserts the points `start, start + 1, ..., end` (inclusive) of
    /// `dataset` in turn. A removed point is reactivated in place; any other
    /// point must be the next one, `spec_point_count()`, and there must be
    /// room for it. The first insertion that fails stops the others and its
    /// error is returned; the static indices that took new points are rebuilt
    /// either way.
    pub fn add_points<D: KdTreeDataset>(&mut self, dataset: &D, start: usize, end: usize) -> (r: Result<()>)
        requires
            old(self).wf(dataset),
        ensures
            final(self).wf(dataset),
            final(self).spec_point_count() == final(self).spec_flags().len(),
            final(self).spec_dim() == old(self).spec_dim(),
            final(self).spec_metric() == old(self).spec_metric(),
            final(self).spec_params() == old(self).spec_params(),
            final(self).spec_max() == old(self).spec_max(),
            start > end ==> r is Ok && final(self).spec_flags() == old(self).spec_flags() && final(self).spec_indices()
                == old(self).spec_indices(),
            start <= end && end >= dataset.spec_point_count() ==> r == Err::<(), KdTreeError>(
                KdTreeError::IndexOutOfBounds { index: end, len: dataset.spec_point_count() as usize },
            ) && final(self).spec_flags() == old(self).spec_flags() && final(self).spec_indices() == old(self).spec_indices(),
            start <= end < dataset.spec_point_count() ==> ({
                let (flags, stop) = insert_range(old(self).spec_flags(), old(self).spec_max(), start as nat, end as nat);
                let grew = flags.len() > old(self).spec_flags().len();
                let box_error = dataset_box_error(dataset, old(self).spec_dim());
                &&& final(self).spec_flags() == flags
                &&& stop matches Some(e) ==> r == Err::<(), KdTreeError>(e)
                &&& stop is None && grew && box_error is Some ==> r == Err::<(), KdTreeError>(box_error->0)
                &&& stop is None && (!grew || box_error is None) ==> r is Ok
            }),
            old(self).all_built() && (r is Ok || dataset_box_error(dataset, old(self).spec_dim()) is None) ==> final(self).all_built(),
    {
        if start > end {
            return Ok(());
        }
        let dataset_len = dataset.kdtree_get_point_count();
        if end >= dataset_len {
            return Err(KdTreeError::IndexOutOfBounds { index: end, len: dataset_len });
        }
        proof {
            assert(obeys_key_model::<usize>());
            assert(builds_valid_hashers::<std::hash::RandomState>());
        }
        let ghost flags0 = self.spec_flags();
        let ghost max = self.maximum_point_count as nat;
        let ghost goal = insert_range(flags0, max, start as nat, end as nat);
        let mut max_index_to_rebuild: Option<usize> = None;
        let mut stop: Option<KdTreeError> = None;
        let mut idx: usize = start;
        loop
            invariant_except_break
                start <= idx <= end,
                stop is None,
                insert_range(self.spec_flags(), max, idx as nat, end as nat) == goal,
            invariant
                end < dataset.spec_point_count(),
                goal == insert_range(flags0, max, start as nat, end as nat),
                flags0 == old(self).spec_flags(),
                max == old(self).maximum_point_count,
                old(self).wf(dataset),
                self.structure_ok(dataset),
                self.layout_ok(),
                self.metric == old(self).metric,
                self.params == old(self).params,
                self.dim == old(self).dim,
                self.tree_count == old(self).tree_count,
                self.maximum_point_count == old(self).maximum_point_count,
                self.indices@.len() == old(self).indices@.len(),
                self.point_count >= old(self).point_count,
                max_index_to_rebuild is Some <==> self.point_count > old(self).point_count,
                max_index_to_rebuild matches Some(m) ==> m < self.indices@.len() && self.indices@[m as int].v_acc@.len() > 0,
                forall|t: int|
                    0 <= t < self.indices@.len() && (max_index_to_rebuild matches Some(m) ==> t > m) ==> self.indices@[t]
                        == old(self).indices@[t],
            ensures
                stop matches Some(e) ==> goal == (self.spec_flags(), Some(e)),
                stop is None ==> goal == (self.spec_flags(), None::<KdTreeError>),
            decreases end - idx,
        {
            let ghost flags = self.spec_flags();
            let removed = self.removed_points.remove(&idx);
            match removed {
                Some(tree_id) => {
                    self.tree_index.set(idx, Some(tree_id));
                    proof {
                        assert(self.spec_flags() =~= flags.update(idx as int, true));
                        assert(insert_step(flags, max, idx as nat) == Ok::<Seq<bool>, KdTreeError>(self.spec_flags()));
                        assert forall|i: usize| #[trigger] self.removed_points@.contains_key(i) <==> (i < self.point_count
                            && self.tree_index@[i as int] is None) by {
                            if i != idx {
                                assert(self.removed_points@.contains_key(i) == (i < self.point_count && self.tree_index@[i as int] is None));
                            }
                        }
                    }
                },
                None => {
                    proof {
                        assert(!(idx < flags.len() && !flags[idx as int])) by {
                            if idx < flags.len() && !flags[idx as int] {
                                assert(self.tree_index@[idx as int] is None);
                            }
                        }
                    }
                    if idx != self.point_count {
                        stop = Some(KdTreeError::NonContiguousInsertion { expected: self.point_count, got: idx });
                        proof {
                            assert(insert_range(flags, max, idx as nat, end as nat) == (flags, stop));
                        }
                        break;
                    }
                    if self.point_count >= self.maximum_point_count {
                        stop = Some(KdTreeError::MaximumPointCountExceeded { maximum_point_count: self.maximum_point_count });
                        proof {
                            assert(insert_range(flags, max, idx as nat, end as nat) == (flags, stop));
                        }
                        break;
                    }
                    let pos = first_zero_bit(self.point_count);
                    proof {
                        lemma_trailing_ones_bound(self.point_count as nat);
                        if pos >= self.tree_count {
                            if pos > self.tree_count {
                                vstd::arithmetic::power2::lemma_pow2_strictly_increases(self.tree_count as nat, pos as nat);
                            }
                        }
                    }
                    max_index_to_rebuild = match max_index_to_rebuild {
                        None => Some(pos),
                        Some(m) => if m > pos { Some(m) } else { Some(pos) },
                    };
                    let ghost before = *self;
                    proof {
                        assert forall|u: int| 0 <= u < pos implies (#[trigger] self.indices@[u]).v_acc@.len() == pow2(u as nat) by {
                            lemma_bits_increment(self.point_count as nat, u as nat);
                        }
                        lemma_bits_increment(self.point_count as nat, pos as nat);
                    }
                    self.merge_into(dataset, pos);
                    let ghost merged = *self;
                    proof {
                        assert(!merged.indices@[pos as int].indexed().contains(idx as int));
                    }
                    self.indices[pos].push_entry(idx);
                    self.tree_index.push(Some(pos));
                    self.point_count = self.point_count + 1;
                    proof {
                        let v = merged.indices@[pos as int].v_acc@;
                        lemma_push_entry(v, idx);
                        assert(self.spec_flags() =~= flags.push(true));
                        assert forall|t: int| 0 <= t < self.indices@.len() implies (#[trigger] self.indices@[t]).wf(dataset, self.dim as nat) by {
                            assert(merged.indices@[t].wf(dataset, self.dim as nat));
                            if t == pos as int {
                                assert forall|k: int| 0 <= k < v.len() + 1 implies (#[trigger] v.push(idx)[k]) < dataset.spec_point_count() by {
                                    if k < v.len() {
                                        assert(v.push(idx)[k] == v[k]);
                                    }
                                }
                            }
                        }
                        assert forall|t: int, c: int| 0 <= t < self.indices@.len() && #[trigger] self.indices@[t].indexed().contains(c) implies 0
                            <= c < self.point_count by {
                            if t == pos as int && c != idx as int {
                                assert(merged.indices@[t].indexed().contains(c));
                            } else if t != pos as int {
                                assert(merged.indices@[t].indexed().contains(c));
                            }
                        }
                        assert forall|t1: int, t2: int, c: int|
                            0 <= t1 < self.indices@.len() && 0 <= t2 < self.indices@.len() && t1 != t2
                                && #[trigger] self.indices@[t1].indexed().contains(c) implies !#[trigger] self.indices@[t2].indexed().contains(
                            c,
                        ) by {
                            if c == idx as int {
                                if t1 != pos as int {
                                    assert(merged.indices@[t1].indexed().contains(c));
                                } else {
                                    assert(t2 != pos as int);
                                    if self.indices@[t2].indexed().contains(c) {
                                        assert(merged.indices@[t2].indexed().contains(c));
                                    }
                                }
                            } else {
                                assert(merged.indices@[t1].indexed().contains(c));
                                if self.indices@[t2].indexed().contains(c) {
                                    assert(merged.indices@[t2].indexed().contains(c));
                                }
                            }
                        }
                        assert forall|c: int| 0 <= c < self.point_count implies covered(self.indices@, c) by {
                            if c == idx as int {
                                assert(self.indices@[pos as int].indexed().contains(c));
                            } else {
                                assert(covered(merged.indices@, c));
                                let t0 = choose|t: int| 0 <= t < merged.indices@.len() && #[trigger] merged.indices@[t].indexed().contains(c);
                                assert(self.indices@[t0].indexed().contains(c));
                            }
                        }
                        assert forall|i: usize| #[trigger] self.removed_points@.contains_key(i) <==> (i < self.point_count
                            && self.tree_index@[i as int] is None) by {
                            assert(merged.removed_points@.contains_key(i) <==> (i < merged.point_count
                                && merged.tree_index@[i as int] is None));
                            if i < merged.point_count {
                                assert(self.tree_index@[i as int] == merged.tree_index@[i as int]);
                            }
                        }
                        assert(self.structure_ok(dataset));
                        assert(insert_step(flags, max, idx as nat) == Ok::<Seq<bool>, KdTreeError>(self.spec_flags()));
                        assert forall|t: int| 0 <= t < self.indices@.len() implies (#[trigger] self.indices@[t]).v_acc@.len() == if bit(
                            self.point_count as nat,
                            t as nat,
                        ) {
                            pow2(t as nat)
                        } else {
                            0
                        } by {
                            lemma_bits_increment(before.point_count as nat, t as nat);
                            if t > pos {
                                assert(self.indices@[t] == before.indices@[t]);
                            }
                        }
                    }
                },
            }
            proof {
                assert(insert_range(flags, max, idx as nat, end as nat) == insert_range(
                    self.spec_flags(),
                    max,
                    idx as nat + 1,
                    end as nat,
                ));
                if idx == end {
                    assert(insert_range(self.spec_flags(), max, idx as nat + 1, end as nat) == (
                        self.spec_flags(),
                        None::<KdTreeError>,
                    ));
                }
            }
            if idx == end {
                break;
            }
            idx = idx + 1;
        }
        let mut result: Result<()> = Ok(());
        let ghost built = *self;
        match max_index_to_rebuild {
            None => {},
            Some(max_index) => {
                let dim = self.dim;
                let leaf_max_size = self.params.leaf_max_size;
                let mut t: usize = 0;
                while t <= max_index
                    invariant
                        0 <= t <= max_index + 1,
                        max_index < self.indices@.len(),
                        built.indices@[max_index as int].v_acc@.len() > 0,
                        dim == self.dim,
                        leaf_max_size == self.params.leaf_max_size,
                        old(self).wf(dataset),
                        forall|u: int| max_index < u < built.indices@.len() ==> built.indices@[u] == old(self).indices@[u],
                        built.indices@.len() == old(self).indices@.len(),
                        self.structure_ok(dataset),
                        self.layout_ok(),
                        self.same_shape(&built),
                        forall|u: int| t <= u < self.indices@.len() ==> self.indices@[u] == built.indices@[u],
                        forall|u: int| 0 <= u < t ==> (#[trigger] self.indices@[u]).size == self.indices@[u].v_acc@.len(),
                        dataset_box_error(dataset, dim as nat) is None ==> result is Ok && forall|u: int|
                            0 <= u < t ==> (#[trigger] self.indices@[u]).size == 0 || self.indices@[u].root_node is Some,
                        result matches Err(e) ==> dataset_box_error(dataset, dim as nat) == Some(e),
                        dataset_box_error(dataset, dim as nat) is Some && t > max_index ==> result is Err,
                    decreases max_index + 1 - t,
                {
                    let ghost before = *self;
                    proof {
                        assert(before.indices@[t as int].wf(dataset, dim as nat));
                    }
                    let r = self.indices[t].rebuild_current_indices(dataset, dim, leaf_max_size);
                    proof {
                        let o = before.indices@[t as int];
                        let n = self.indices@[t as int];
                        assert(n.wf(dataset, dim as nat));
                        assert forall|u: int| 0 <= u < self.indices@.len() implies (#[trigger] self.indices@[u]).wf(dataset, self.dim as nat) by {
                            assert(before.indices@[u].wf(dataset, self.dim as nat));
                        }
                        assert forall|u: int, c: int| 0 <= u < self.indices@.len() && #[trigger] self.indices@[u].indexed().contains(c) implies 0
                            <= c < self.point_count by {
                            assert(before.indices@[u].indexed().contains(c));
                        }
                        assert forall|t1: int, t2: int, c: int|
                            0 <= t1 < self.indices@.len() && 0 <= t2 < self.indices@.len() && t1 != t2
                                && #[trigger] self.indices@[t1].indexed().contains(c) implies !#[trigger] self.indices@[t2].indexed().contains(
                            c,
                        ) by {
                            assert(before.indices@[t1].indexed().contains(c));
                            if self.indices@[t2].indexed().contains(c) {
                                assert(before.indices@[t2].indexed().contains(c));
                            }
                        }
                        assert forall|c: int| 0 <= c < self.point_count implies covered(self.indices@, c) by {
                            assert(covered(before.indices@, c));
                            let t0 = choose|u: int| 0 <= u < before.indices@.len() && #[trigger] before.indices@[u].indexed().contains(c);
                            assert(self.indices@[t0].indexed().contains(c));
                        }
                        assert(self.spec_flags() =~= before.spec_flags());
                        assert forall|u: int| 0 <= u < self.indices@.len() implies (#[trigger] self.indices@[u]).v_acc@.len()
                            == before.indices@[u].v_acc@.len() by {}
                    }
                    match r {
                        Ok(()) => {},
                        Err(e) => {
                            if result.is_ok() {
                                result = Err(e);
                            }
                        },
                    }
                    t = t + 1;
                }
            },
        }
        proof {
            assert forall|u: int| 0 <= u < self.indices@.len() implies (#[trigger] self.indices@[u]).size == self.indices@[u].v_acc@.len() by {
                assert(old(self).indices@[u].size == old(self).indices@[u].v_acc@.len());
            }
            assert(self.sizes_ok());
            if old(self).all_built() && ((stop is None && result is Ok) || dataset_box_error(dataset, self.dim as nat) is None) {
                assert forall|u: int| 0 <= u < self.spec_indices().len() implies (#[trigger] self.spec_indices()[u]).size == 0
                    || self.spec_indices()[u].root_node is Some by {
                    assert(old(self).spec_indices()[u].size == 0 || old(self).spec_indices()[u].root_node is Some);
                }
            }
        }
        match stop {
            Some(e) => Err(e),
            None => result,
        }
    }
}

/// The points of the static indices `[0, t)`.
pub open spec fn indexed_upto(indices: Seq<KdTreeIndex>, t: int) -> Set<int>
    decreases t,
{
    if t <= 0 {
        Set::empty()
    } else {
        indexed_upto(indices, t - 1).union(indices[t - 1].indexed())
    }
}

/// A point is among those of the indices `[0, t)` when one of them holds it.
proof fn lemma_indexed_upto(indices: Seq<KdTreeIndex>, t: int, c: int)
    requires
        0 <= t <= indices.len(),
    ensures
        indexed_upto(indices, t).contains(c) <==> exists|u: int| 0 <= u < t && #[trigger] indices[u].indexed().contains(c),
    decreases t,
{
    if t > 0 {
        lemma_indexed_upto(indices, t - 1, c);
        if indices[t - 1].indexed().contains(c) {
            assert(0 <= t - 1 < t && indices[t - 1].indexed().contains(c));
        }
    }
}

impl<M: DistanceMetric> DynamicKdTree<M> {
    /// How a search fails, by the query and the state of the static indices:
    /// a too short query fails; an index with points but no root fails;
    /// otherwise the search succeeds.
    pub open spec fn search_outcome<T>(&self, query: Seq<i32>, res: Result<Vec<T>>) -> bool {
        &&& query.len() < self.spec_dim() ==> res == Err::<Vec<T>, KdTreeError>(
            KdTreeError::QueryDimensionalityMismatch { expected_at_least: self.spec_dim() as usize, got: query.len() as usize },
        )
        &&& query.len() >= self.spec_dim() && !self.all_built() ==> res == Err::<Vec<T>, KdTreeError>(KdTreeError::IndexNotBuilt)
        &&& query.len() >= self.spec_dim() && self.all_built() ==> res is Ok
    }

    /// Runs a search over every static index into `result`, with the active
    /// points only, then sorts the result if asked.
    fn find_neighbors_result_set<D: KdTreeDataset>(
        &self,
        dataset: &D,
        result: &mut Collector,
        query: &[i32],
        search_params: SearchParameters,
    ) -> (r: Result<bool>)
        requires
            self.wf(dataset),
            old(result).wf(),
            old(result).items@.len() == 0,
        ensures
            final(result).bounded == old(result).bounded,
            final(result).capacity == old(result).capacity,
            final(result).radius == old(result).radius,
            final(result).first_match == old(result).first_match,
            query@.len() < self.spec_dim() ==> r == Err::<bool, KdTreeError>(
                KdTreeError::QueryDimensionalityMismatch { expected_at_least: self.dim, got: query@.len() as usize },
            ),
            query@.len() >= self.spec_dim() && !self.all_built() ==> r == Err::<bool, KdTreeError>(KdTreeError::IndexNotBuilt),
            query@.len() >= self.spec_dim() && self.all_built() ==> {
                &&& r is Ok
                &&& search_inv(
                    *final(result),
                    Set::new(|c: int| 0 <= c < self.point_count),
                    &self.metric,
                    dataset,
                    query@,
                    self.dim as nat,
                    1 + search_params.eps,
                    filter_view(Some(&self.tree_index)),
                )
                &&& search_params.sorted ==> sorted_by_distance(final(result).items@)
            },
    {
        let ghost act = filter_view(Some(&self.tree_index));
        let ghost e = 1 + search_params.eps;
        let mut per_tree_params = search_params;
        per_tree_params.sorted = false;
        proof {
            lemma_inv_empty(*result, &self.metric, dataset, query@, self.dim as nat, e, act);
            assert(indexed_upto(self.indices@, 0) =~= Set::<int>::empty());
        }
        let mut t: usize = 0;
        while t < self.indices.len()
            invariant
                0 <= t <= self.indices@.len(),
                self.wf(dataset),
                act == filter_view(Some(&self.tree_index)),
                e == 1 + search_params.eps,
                per_tree_params.eps == search_params.eps,
                !per_tree_params.sorted,
                t > 0 ==> query@.len() >= self.dim,
                forall|u: int| 0 <= u < t ==> (#[trigger] self.indices@[u]).size == 0 || self.indices@[u].root_node is Some,
                result.bounded == old(result).bounded,
                result.capacity == old(result).capacity,
                result.radius == old(result).radius,
                result.first_match == old(result).first_match,
                search_inv(*result, indexed_upto(self.indices@, t as int), &self.metric, dataset, query@, self.dim as nat, e, act),
            decreases self.indices@.len() - t,
        {
            let ghost handled = indexed_upto(self.indices@, t as int);
            let ghost before = *result;
            proof {
                assert(self.indices@[t as int].wf(dataset, self.dim as nat));
                assert forall|c: int| #[trigger] self.indices@[t as int].indexed().contains(c) implies !handled.contains(c) by {
                    lemma_indexed_upto(self.indices@, t as int, c);
                    if handled.contains(c) {
                        let u = choose|u: int| 0 <= u < t && #[trigger] self.indices@[u].indexed().contains(c);
                        assert(!self.indices@[u].indexed().contains(c));
                    }
                }
            }
            match self.indices[t].find_neighbors_set(
                dataset,
                &self.metric,
                self.dim,
                result,
                query,
                per_tree_params,
                Some(&self.tree_index),
                Ghost(handled),
                Ghost(Set::empty()),
            ) {
                Ok(_) => {},
                Err(e) => {
                    proof {
                        if query@.len() >= self.dim {
                            assert(!self.all_built()) by {
                                assert(!(self.spec_indices()[t as int].size == 0 || self.spec_indices()[t as int].root_node is Some));
                            }
                        }
                    }
                    return Err(e);
                },
            }
            proof {
                assert(indexed_upto(self.indices@, t as int + 1) == handled.union(self.indices@[t as int].indexed()));
                if self.indices@[t as int].size == 0 {
                    assert(self.indices@[t as int].indexed() =~= Set::<int>::empty());
                    assert(handled.union(self.indices@[t as int].indexed()) =~= handled);
                    assert(result.items@ == before.items@);
                    assert(result.worst_spec() == before.worst_spec());
                    if self.metric.obeys_pruning_laws() {
                        assert forall|c: int| handled.contains(c) && is_active(act, c) && !holds_index(result.items@, c) implies #[trigger] beyond(
                            *result,
                            dist_of(&self.metric, dataset, query@, self.dim as nat, c),
                            e,
                        ) by {
                            assert(beyond(before, dist_of(&self.metric, dataset, query@, self.dim as nat, c), e));
                        }
                        assert forall|c: int| handled.contains(c) && is_active(act, c) && !holds_index(result.items@, c) implies #[trigger] loses_tie(
                            *result,
                            dist_of(&self.metric, dataset, query@, self.dim as nat, c),
                            c,
                            e,
                        ) by {
                            assert(loses_tie(before, dist_of(&self.metric, dataset, query@, self.dim as nat, c), c, e));
                        }
                    }
                    assert(search_inv(*result, handled, &self.metric, dataset, query@, self.dim as nat, e, act));
                } else {
                    assert(search_inv(*result, handled.union(self.indices@[t as int].indexed()), &self.metric, dataset, query@, self.dim as nat, e, act));
                }
            }
            t = t + 1;
        }
        proof {
            if self.indices@.len() == 0 {
                vstd::arithmetic::power2::lemma2_to64();
            }
            assert(self.all_built());
            assert forall|c: int| indexed_upto(self.indices@, t as int).contains(c) <==> 0 <= c < self.point_count by {
                lemma_indexed_upto(self.indices@, t as int, c);
                if 0 <= c < self.point_count {
                    assert(covered(self.indices@, c));
                }
                if indexed_upto(self.indices@, t as int).contains(c) {
                    let u = choose|u: int| 0 <= u < t && #[trigger] self.indices@[u].indexed().contains(c);
                }
            }
            assert(indexed_upto(self.indices@, t as int) =~= Set::new(|c: int| 0 <= c < self.point_count));
        }
        if search_params.sorted {
            let ghost before = *result;
            result.sort();
            proof {
                lemma_sort_keeps_inv(
                    before,
                    *result,
                    Set::new(|c: int| 0 <= c < self.point_count),
                    &self.metric,
                    dataset,
                    query@,
                    self.dim as nat,
                    e,
                    act,
                );
            }
        }
        Ok(result.full())
    }

    /// The active points are those handled by a full search that pass its filter.
    proof fn lemma_active_cands<D: KdTreeDataset>(&self, ds: &D)
        requires
            self.wf(ds),
        ensures
            forall|c: int| #[trigger] self.active_set().contains(c) <==> Set::new(|i: int| 0 <= i < self.point_count).contains(c)
                && is_active(filter_view(Some(&self.tree_index)), c),
    {
    }

    /// Returns the `num_closest` nearest active neighbors.
    pub fn knn_search<D: KdTreeDataset>(&self, dataset: &D, query: &[i32], num_closest: usize) -> (res: Result<Vec<ResultItem>>)
        requires
            self.wf(dataset),
        ensures
            self.search_outcome(query@, res),
            res matches Ok(items) ==> knn_answer(
                items@,
                self.active_set(),
                &self.spec_metric(),
                dataset,
                query@,
                self.spec_dim(),
                num_closest as nat,
                i128::MAX as int,
                1,
                self.spec_params().first_match,
            ),
    {
        self.knn_search_with_params(dataset, query, num_closest, SearchParameters::default())
    }

    /// Returns the `num_closest` nearest active neighbors, pruning with `search_params.eps`.
    pub fn knn_search_with_params<D: KdTreeDataset>(
        &self,
        dataset: &D,
        query: &[i32],
        num_closest: usize,
        search_params: SearchParameters,
    ) -> (res: Result<Vec<ResultItem>>)
        requires
            self.wf(dataset),
        ensures
            self.search_outcome(query@, res),
            res matches Ok(items) ==> knn_answer(
                items@,
                self.active_set(),
                &self.spec_metric(),
                dataset,
                query@,
                self.spec_dim(),
                num_closest as nat,
                i128::MAX as int,
                1 + search_params.eps,
                self.spec_params().first_match,
            ),
    {
        let mut result = KnnResultSet::with_first_match(num_closest, self.params.first_match);
        match self.find_neighbors_result_set(dataset, &mut result.set, query, search_params) {
            Ok(_) => {},
            Err(e) => {
                return Err(e);
            },
        }
        proof {
            self.lemma_active_cands(dataset);
            lemma_knn_from_inv(
                result.set,
                Set::new(|c: int| 0 <= c < self.point_count),
                self.active_set(),
                &self.metric,
                dataset,
                query@,
                self.dim as nat,
                1 + search_params.eps,
                filter_view(Some(&self.tree_index)),
            );
        }
        Ok(result.into_vec())
    }

    /// Returns all active neighbors with `distance < radius`, nearest first.
    pub fn radius_search<D: KdTreeDataset>(&self, dataset: &D, query: &[i32], radius: i128) -> (res: Result<Vec<ResultItem>>)
        requires
            self.wf(dataset),
        ensures
            self.search_outcome(query@, res),
            res matches Ok(items) ==> {
                &&& radius_answer(items@, self.active_set(), &self.spec_metric(), dataset, query@, self.spec_dim(), radius as int, 1)
                &&& sorted_by_distance(items@)
            },
    {
        self.radius_search_with_params(dataset, query, radius, SearchParameters::default())
    }

    /// Returns all active neighbors with `distance < radius`, pruning with
    /// `search_params.eps`, sorted by distance if `search_params.sorted`.
    pub fn radius_search_with_params<D: KdTreeDataset>(
        &self,
        dataset: &D,
        query: &[i32],
        radius: i128,
        search_params: SearchParameters,
    ) -> (res: Result<Vec<ResultItem>>)
        requires
            self.wf(dataset),
        ensures
            self.search_outcome(query@, res),
            res matches Ok(items) ==> {
                &&& radius_answer(
                    items@,
                    self.active_set(),
                    &self.spec_metric(),
                    dataset,
                    query@,
                    self.spec_dim(),
                    radius as int,
                    1 + search_params.eps,
                )
                &&& search_params.sorted ==> sorted_by_distance(items@)
            },
    {
        let mut result = RadiusResultSet::new(radius);
        match self.find_neighbors_result_set(dataset, &mut result.set, query, search_params) {
            Ok(_) => {},
            Err(e) => {
                return Err(e);
            },
        }
        proof {
            self.lemma_active_cands(dataset);
            lemma_radius_from_inv(
                result.set,
                Set::new(|c: int| 0 <= c < self.point_count),
                self.active_set(),
                &self.metric,
                dataset,
                query@,
                self.dim as nat,
                1 + search_params.eps,
                filter_view(Some(&self.tree_index)),
            );
        }
        Ok(result.into_vec())
    }

    /// Returns the first `num_closest` active neighbors that are also within `radius`.
    pub fn rknn_search<D: KdTreeDataset>(&self, dataset: &D, query: &[i32], num_closest: usize, radius: i128) -> (res: Result<Vec<ResultItem>>)
        requires
            self.wf(dataset),
        ensures
            self.search_outcome(query@, res),
            res matches Ok(items) ==> knn_answer(
                items@,
                self.active_set(),
                &self.spec_metric(),
                dataset,
                query@,
                self.spec_dim(),
                num_closest as nat,
                radius as int,
                1,
                self.spec_params().first_match,
            ),
    {
        let mut result = RknnResultSet::with_first_match(num_closest, radius, self.params.first_match);
        let search_params = SearchParameters::default();
        match self.find_neighbors_result_set(dataset, &mut result.set, query, search_params) {
            Ok(_) => {},
            Err(e) => {
                return Err(e);
            },
        }
        proof {
            self.lemma_active_cands(dataset);
            lemma_knn_from_inv(
                result.set,
                Set::new(|c: int| 0 <= c < self.point_count),
                self.active_set(),
                &self.metric,
                dataset,
                query@,
                self.dim as nat,
                1,
                filter_view(Some(&self.tree_index)),
            );
        }
        Ok(result.into_vec())
    }
}

impl<M: DistanceMetric> DynamicKdTree<M> {
    /// A dynamic tree stays consistent with its dataset when points are
    /// appended to the dataset, as long as they fit the tree's dimensionality.
    pub proof fn lemma_wf_extends<D: KdTreeDataset>(&self, a: &D, b: &D)
        requires
            self.wf(a),
            extends(a, b),
            b.spec_point_count() > 0 ==> self.spec_dim() <= b.spec_point_dim(),
        ensures
            self.wf(b),
    {
        assert forall|t: int| 0 <= t < self.indices@.len() implies (#[trigger] self.indices@[t]).wf(b, self.dim as nat) by {
            lemma_index_wf_extends(self.indices@[t], a, b, self.dim as nat);
        }
    }

    /// The tree never holds more points than it was made for, and has one
    /// activity flag per point inserted.
    pub proof fn lemma_capacity<D: KdTreeDataset>(&self, ds: &D)
        requires
            self.wf(ds),
        ensures
            self.spec_point_count() <= self.spec_max(),
            self.spec_flags().len() == self.spec_point_count(),
    {
    }

    /// The static indices follow the binary digits of the number of points
    /// inserted: index `t` holds `2^t` points when bit `t` of that number is
    /// set, and none otherwise; there are `floor(log2(max)) + 1` indices.
    pub proof fn lemma_layout<D: KdTreeDataset>(&self, ds: &D)
        requires
            self.wf(ds),
        ensures
            self.spec_indices().len() == log2(self.spec_max()) + 1,
            forall|t: int|
                0 <= t < self.spec_indices().len() ==> (#[trigger] self.spec_indices()[t]).v_acc@.len() == if bit(
                    self.spec_point_count(),
                    t as nat,
                ) {
                    pow2(t as nat)
                } else {
                    0
                },
    {
    }

    /// A removed point stays out of every nearest-neighbor and radius answer
    /// over the active points until it is inserted again.
    pub proof fn lemma_removed_absent<D: KdTreeDataset>(
        &self,
        ds: &D,
        c: int,
        items: Seq<ResultItem>,
        q: Seq<i32>,
        k: nat,
        radius: int,
        e: int,
    )
        requires
            0 <= c < self.spec_flags().len(),
            !self.spec_flags()[c],
            knn_answer(items, self.active_set(), &self.spec_metric(), ds, q, self.spec_dim(), k, radius, e, self.spec_params().first_match)
                || radius_answer(items, self.active_set(), &self.spec_metric(), ds, q, self.spec_dim(), radius, e),
        ensures
            !holds_index(items, c),
    {
        if holds_index(items, c) {
            let i = choose|i: int| 0 <= i < items.len() && items[i].index == c;
            assert(self.active_set().contains(items[i].index as int));
        }
    }

    /// Every point inserted so far, active or removed, sits in exactly one
    /// static index, and the indices hold no other point.
    pub proof fn lemma_indexed_once<D: KdTreeDataset>(&self, ds: &D)
        requires
            self.wf(ds),
        ensures
            partitions(self.spec_indices(), self.spec_point_count()),
    {
    }
}

/// Inserting a removed point again reactivates it in place: the flags come
/// back as they were before the removal, and no point is added.
pub proof fn lemma_remove_reinsert(flags: Seq<bool>, max: nat, idx: nat)
    requires
        idx < flags.len(),
        flags[idx as int],
    ensures
        insert_range(flags.update(idx as int, false), max, idx, idx) == (flags, None::<KdTreeError>),
{
    let removed = flags.update(idx as int, false);
    assert(insert_step(removed, max, idx) == Ok::<Seq<bool>, KdTreeError>(removed.update(idx as int, true)));
    assert(removed.update(idx as int, true) =~= flags);
    assert(insert_range(flags, max, idx + 1, idx) == (flags, None::<KdTreeError>));
}

/// `count` empty static indices of `dim` dimensions.
fn init_indices(count: usize, dim: usize) -> (v: Vec<KdTreeIndex>)
    ensures
        v@.len() == count,
        forall|t: int| 0 <= t < count ==> {
            &&& (#[trigger] v@[t]).v_acc@.len() == 0
            &&& v@[t].root_node is None
            &&& v@[t].size == 0
            &&& v@[t].root_bbox@ == zero_bbox(dim as nat)
        },
{
    let mut v: Vec<KdTreeIndex> = Vec::new();
    let mut i: usize = 0;
    while i < count
        invariant
            0 <= i <= count,
            v@.len() == i,
            forall|t: int| 0 <= t < i ==> {
                &&& (#[trigger] v@[t]).v_acc@.len() == 0
                &&& v@[t].root_node is None
                &&& v@[t].size == 0
                &&& v@[t].root_bbox@ == zero_bbox(dim as nat)
            },
        decreases count - i,
    {
        v.push(KdTreeIndex::unbuilt(0, dim));
        i = i + 1;
    }
    v
}

} // verus!
