use vstd::prelude::*;

verus! {

broadcast use vstd::seq_lib::group_to_multiset_ensures;

/// One nearest-neighbor result item.
#[derive(Clone, Copy, Debug, PartialEq, Eq, Structural)]
pub struct ResultItem {
    /// Index of the sample in the dataset.
    pub index: usize,
    /// Distance from sample to query point. L2 distances are squared.
    pub distance: i128,
}

impl ResultItem {
    /// The item `(index, distance)`.
    pub fn new(index: usize, distance: i128) -> (r: Self)
        ensures
            r == (ResultItem { index, distance }),
    {
        ResultItem { index, distance }
    }
}

/// Items are in ascending order of distance.
pub open spec fn sorted_by_distance(s: Seq<ResultItem>) -> bool {
    forall|i: int, j: int| 0 <= i < j < s.len() ==> #[trigger] s[i].distance <= #[trigger] s[j].distance
}

/// `a` comes no later than `b` in the order by distance, then index.
pub open spec fn lex_le(a: ResultItem, b: ResultItem) -> bool {
    a.distance < b.distance || (a.distance == b.distance && a.index <= b.index)
}

/// Items are in ascending order of distance, equal distances by ascending index.
pub open spec fn sorted_lex(s: Seq<ResultItem>) -> bool {
    forall|i: int, j: int| 0 <= i < j < s.len() ==> lex_le(#[trigger] s[i], #[trigger] s[j])
}

/// Whether `prev` moves behind a newly inserted `item`.
pub open spec fn shifts(prev: ResultItem, item: ResultItem, first_match: bool) -> bool {
    prev.distance > item.distance || (first_match && prev.distance == item.distance && prev.index
        > item.index)
}

/// Where `item` is inserted: after the longest prefix of `s` whose last element does not shift.
pub open spec fn insertion_pos(s: Seq<ResultItem>, item: ResultItem, first_match: bool) -> int
    decreases s.len(),
{
    if s.len() == 0 {
        0
    } else if shifts(s.last(), item, first_match) {
        insertion_pos(s.drop_last(), item, first_match)
    } else {
        s.len() as int
    }
}

/// The items after a bounded sorted insertion of `item` into `s`.
pub open spec fn bounded_insert(s: Seq<ResultItem>, item: ResultItem, capacity: nat, first_match: bool) -> Seq<ResultItem> {
    if capacity == 0 {
        s
    } else {
        let p = insertion_pos(s, item, first_match);
        if p < capacity {
            let t = s.insert(p, item);
            if t.len() > capacity {
                t.drop_last()
            } else {
                t
            }
        } else {
            s
        }
    }
}

/// `s` is in the order the insertions keep: by distance, and with
/// `first_match` by distance then index.
pub open spec fn ordered(s: Seq<ResultItem>, first_match: bool) -> bool {
    &&& sorted_by_distance(s)
    &&& first_match ==> sorted_lex(s)
}

pub proof fn lemma_insertion_pos_bounds(s: Seq<ResultItem>, item: ResultItem, first_match: bool)
    ensures
        0 <= insertion_pos(s, item, first_match) <= s.len(),
        forall|k: int|
            insertion_pos(s, item, first_match) <= k < s.len() ==> shifts(#[trigger] s[k], item, first_match),
        insertion_pos(s, item, first_match) > 0 ==> !shifts(
            s[insertion_pos(s, item, first_match) - 1],
            item,
            first_match,
        ),
    decreases s.len(),
{
    if s.len() > 0 && shifts(s.last(), item, first_match) {
        lemma_insertion_pos_bounds(s.drop_last(), item, first_match);
        let p = insertion_pos(s, item, first_match);
        assert forall|k: int| p <= k < s.len() implies shifts(#[trigger] s[k], item, first_match) by {
            if k < s.len() - 1 {
                assert(s.drop_last()[k] == s[k]);
            }
        }
        if p > 0 {
            assert(s.drop_last()[p - 1] == s[p - 1]);
        }
    }
}

/// Inserting into an ordered sequence keeps it ordered, and the element before the
/// insertion point does not shift.
pub proof fn lemma_bounded_insert_ordered(s: Seq<ResultItem>, item: ResultItem, capacity: nat, first_match: bool)
    requires
        ordered(s, first_match),
    ensures
        ordered(bounded_insert(s, item, capacity, first_match), first_match),
        forall|k: int|
            0 <= k < insertion_pos(s, item, first_match) ==> !shifts(#[trigger] s[k], item, first_match),
{
    lemma_insertion_pos_bounds(s, item, first_match);
    let p = insertion_pos(s, item, first_match);
    assert forall|k: int| 0 <= k < p implies !shifts(#[trigger] s[k], item, first_match) by {
        assert(s[k].distance <= s[p - 1].distance);
        if first_match {
            assert(lex_le(s[k], s[p - 1]) || k == p - 1);
        }
    }
    if capacity > 0 && p < capacity {
        let t = s.insert(p, item);
        s.insert_ensures(p, item);
        assert(ordered(t, first_match)) by {
            assert forall|i: int, j: int| 0 <= i < j < t.len() implies #[trigger] t[i].distance
                <= #[trigger] t[j].distance by {
                if j < p {
                } else if j == p {
                    assert(!shifts(s[i], item, first_match));
                } else if i < p {
                    assert(t[j] == s[j - 1]);
                    assert(shifts(s[j - 1], item, first_match));
                    assert(!shifts(s[i], item, first_match));
                } else if i == p {
                    assert(shifts(s[j - 1], item, first_match));
                } else {
                    assert(t[i] == s[i - 1]);
                    assert(t[j] == s[j - 1]);
                }
            }
            if first_match {
                assert forall|i: int, j: int| 0 <= i < j < t.len() implies lex_le(#[trigger] t[i], #[trigger] t[j]) by {
                    if j < p {
                    } else if j == p {
                        assert(!shifts(s[i], item, first_match));
                    } else if i < p {
                        assert(t[j] == s[j - 1]);
                        assert(shifts(s[j - 1], item, first_match));
                        assert(!shifts(s[i], item, first_match));
                    } else if i == p {
                        assert(shifts(s[j - 1], item, first_match));
                    } else {
                        assert(t[i] == s[i - 1]);
                        assert(t[j] == s[j - 1]);
                    }
                }
            }
        }
        if t.len() > capacity {
            let u = t.drop_last();
            assert forall|i: int, j: int| 0 <= i < j < u.len() implies #[trigger] u[i].distance
                <= #[trigger] u[j].distance by {
                assert(u[i] == t[i] && u[j] == t[j]);
            }
            if first_match {
                assert forall|i: int, j: int| 0 <= i < j < u.len() implies lex_le(#[trigger] u[i], #[trigger] u[j]) by {
                    assert(u[i] == t[i] && u[j] == t[j]);
                }
            }
        }
    }
}

/// Inserts `item` behind every element that does not shift, then drops the
/// last element if `capacity` is exceeded. Nothing changes when `capacity` is 0
/// or the insertion point lies at or past `capacity`.
pub fn insert_sorted_bounded(items: &mut Vec<ResultItem>, item: ResultItem, capacity: usize, first_match: bool)
    ensures
        final(items)@ == bounded_insert(old(items)@, item, capacity as nat, first_match),
{
    if capacity == 0 {
        return;
    }
    let mut pos = items.len();
    assert(items@.take(pos as int) =~= items@);
    while pos > 0
        invariant
            0 <= pos <= items@.len(),
            insertion_pos(items@, item, first_match) == insertion_pos(items@.take(pos as int), item, first_match),
        ensures
            0 <= pos <= items@.len(),
            insertion_pos(items@, item, first_match) == insertion_pos(items@.take(pos as int), item, first_match),
            pos == 0 || !shifts(items@[pos - 1], item, first_match),
        decreases pos,
    {
        let prev = items[pos - 1];
        let should_shift = prev.distance > item.distance || (first_match && prev.distance
            == item.distance && prev.index > item.index);
        if should_shift {
            assert(items@.take(pos as int).drop_last() =~= items@.take(pos - 1));
            pos = pos - 1;
        } else {
            break;
        }
    }
    proof {
        if pos == 0 {
            assert(items@.take(0) =~= Seq::<ResultItem>::empty());
        } else {
            assert(items@.take(pos as int).last() == items@[pos - 1]);
        }
    }
    let ghost before = items@;
    assert(pos == insertion_pos(before, item, first_match));
    if pos < capacity {
        items.insert(pos, item);
        if items.len() > capacity {
            items.pop();
            assert(items@ =~= before.insert(pos as int, item).drop_last());
        }
    }
}

/// Accumulating state of a search. A bounded collector keeps at most
/// `capacity` items, nearest first; an unbounded one keeps every item whose
/// distance is below `radius`.
pub struct Collector {
    pub bounded: bool,
    pub capacity: usize,
    pub radius: i128,
    pub first_match: bool,
    pub items: Vec<ResultItem>,
}

impl Collector {
    /// The distance below which a new candidate is offered.
    pub open spec fn worst_spec(&self) -> i128 {
        if self.bounded && self.items@.len() >= self.capacity && self.items@.len() > 0 {
            self.items@.last().distance
        } else {
            self.radius
        }
    }

    /// With `first_match`, a candidate as near as the last item of a full
    /// bounded collector, with a smaller index than that item, takes its place.
    pub open spec fn wins_tie(&self, distance: int, index: int) -> bool {
        &&& self.bounded
        &&& self.first_match
        &&& 0 < self.capacity == self.items@.len()
        &&& distance == self.items@.last().distance
        &&& index < self.items@.last().index
    }

    /// Whether an offered candidate enters the collector: it is nearer than the
    /// worst distance, or it wins a tie with the last item.
    pub open spec fn takes(&self, distance: int, index: int) -> bool {
        distance < self.worst_spec() || self.wins_tie(distance, index)
    }

    /// Every item is below the radius; a bounded collector holds at most
    /// `capacity` items in insertion order.
    pub open spec fn wf(&self) -> bool {
        &&& forall|k: int| 0 <= k < self.items@.len() ==> (#[trigger] self.items@[k]).distance < self.radius
        &&& self.bounded ==> {
            &&& self.items@.len() <= self.capacity
            &&& ordered(self.items@, self.first_match)
        }
    }

    /// An empty bounded collector.
    pub fn bounded(capacity: usize, radius: i128, first_match: bool) -> (c: Self)
        ensures
            c.wf(),
            c.bounded,
            c.capacity == capacity,
            c.radius == radius,
            c.first_match == first_match,
            c.items@ == Seq::<ResultItem>::empty(),
    {
        Collector { bounded: true, capacity, radius, first_match, items: Vec::new() }
    }

    /// An empty unbounded collector.
    pub fn unbounded(radius: i128) -> (c: Self)
        ensures
            c.wf(),
            !c.bounded,
            c.radius == radius,
            c.capacity == 0,
            !c.first_match,
            c.items@ == Seq::<ResultItem>::empty(),
    {
        Collector { bounded: false, capacity: 0, radius, first_match: false, items: Vec::new() }
    }

    /// The distance below which a new candidate is offered.
    pub fn worst_dist(&self) -> (w: i128)
        ensures
            w == self.worst_spec(),
    {
        if self.bounded && self.items.len() >= self.capacity && self.items.len() > 0 {
            self.items[self.items.len() - 1].distance
        } else {
            self.radius
        }
    }

    /// Whether a candidate at `distance` with index `index` enters the collector.
    pub fn accepts(&self, distance: i128, index: usize) -> (b: bool)
        ensures
            b == self.takes(distance as int, index as int),
    {
        if distance < self.worst_dist() {
            return true;
        }
        if self.bounded && self.first_match && self.capacity > 0 && self.items.len() == self.capacity {
            let last = self.items[self.items.len() - 1];
            distance == last.distance && index < last.index
        } else {
            false
        }
    }

    /// Offers a candidate that the collector takes.
    pub fn add_point(&mut self, distance: i128, index: usize)
        requires
            old(self).wf(),
            old(self).takes(distance as int, index as int),
        ensures
            final(self).wf(),
            final(self).bounded == old(self).bounded,
            final(self).capacity == old(self).capacity,
            final(self).radius == old(self).radius,
            final(self).first_match == old(self).first_match,
            final(self).bounded ==> final(self).items@ == bounded_insert(
                old(self).items@,
                ResultItem { index, distance },
                old(self).capacity as nat,
                old(self).first_match,
            ),
            !final(self).bounded ==> final(self).items@ == old(self).items@.push(ResultItem { index, distance }),
    {
        let item = ResultItem::new(index, distance);
        if self.bounded {
            proof {
                lemma_bounded_insert_ordered(self.items@, item, self.capacity as nat, self.first_match);
                lemma_bounded_insert_members(self.items@, item, self.capacity as nat, self.first_match);
            }
            insert_sorted_bounded(&mut self.items, item, self.capacity, self.first_match);
        } else {
            if distance < self.radius {
                self.items.push(item);
            }
        }
    }

    /// Whether a bounded collector holds `capacity` items; an unbounded one is always full.
    pub fn full(&self) -> (b: bool)
        ensures
            b == (!self.bounded || self.items@.len() == self.capacity),
    {
        !self.bounded || self.items.len() == self.capacity
    }

    /// Sorts the items of an unbounded collector by ascending distance, keeping
    /// the order of equal distances; a bounded collector is sorted already.
    pub fn sort(&mut self)
        requires
            old(self).wf(),
        ensures
            final(self).wf(),
            final(self).bounded == old(self).bounded,
            final(self).capacity == old(self).capacity,
            final(self).radius == old(self).radius,
            final(self).first_match == old(self).first_match,
            final(self).items@.to_multiset() == old(self).items@.to_multiset(),
            final(self).bounded ==> final(self).items@ == old(self).items@,
            sorted_by_distance(final(self).items@),
            forall|d: i128| #[trigger] final(self).items@.filter(dist_is(d)) == old(self).items@.filter(dist_is(d)),
    {
        if !self.bounded {
            let mut items: Vec<ResultItem> = Vec::new();
            std::mem::swap(&mut items, &mut self.items);
            let ghost old_items = items@;
            let sorted = sort_by_distance(items);
            proof {
                assert forall|k: int| 0 <= k < sorted@.len() implies (#[trigger] sorted@[k]).distance < self.radius by {
                    assert(sorted@.contains(sorted@[k]));
                    assert(sorted@.to_multiset().count(sorted@[k]) > 0);
                    assert(old_items.contains(sorted@[k]));
                }
            }
            self.items = sorted;
        }
    }
}

/// Every element of a bounded insertion comes from `s` or is `item`; an element
/// of `s` that is not kept was at its end and is no nearer than any kept one.
pub proof fn lemma_bounded_insert_members(s: Seq<ResultItem>, item: ResultItem, capacity: nat, first_match: bool)
    ensures
        forall|k: int|
            0 <= k < bounded_insert(s, item, capacity, first_match).len() ==> (#[trigger] bounded_insert(
                s,
                item,
                capacity,
                first_match,
            )[k] == item || s.contains(bounded_insert(s, item, capacity, first_match)[k])),
        forall|k: int|
            0 <= k < s.len() && !bounded_insert(s, item, capacity, first_match).contains(#[trigger] s[k])
                ==> k == s.len() - 1 && s.len() >= capacity,
        bounded_insert(s, item, capacity, first_match).len() == (if capacity == 0 || insertion_pos(s, item, first_match) >= capacity {
            s.len() as int
        } else if s.len() + 1 > capacity {
            s.len() as int
        } else {
            s.len() + 1int
        }),
{
    lemma_insertion_pos_bounds(s, item, first_match);
    let p = insertion_pos(s, item, first_match);
    let r = bounded_insert(s, item, capacity, first_match);
    if capacity > 0 && p < capacity {
        let t = s.insert(p, item);
        s.insert_ensures(p, item);
        assert forall|k: int| 0 <= k < r.len() implies (#[trigger] r[k] == item || s.contains(r[k])) by {
            if k < p {
                assert(r[k] == s[k]);
            } else if k > p {
                assert(r[k] == s[k - 1]);
            }
        }
        assert forall|k: int| 0 <= k < s.len() && !r.contains(#[trigger] s[k]) implies k == s.len() - 1
            && s.len() >= capacity by {
            if k < p {
                assert(r[k] == s[k]);
            } else if k + 1 < r.len() {
                assert(r[k + 1] == s[k]);
            }
        }
    } else {
        assert forall|k: int| 0 <= k < s.len() && !r.contains(#[trigger] s[k]) implies k == s.len() - 1
            && s.len() >= capacity by {
            assert(r[k] == s[k]);
        }
    }
}

/// A stable sort of `items` by ascending distance.
pub fn sort_by_distance(items: Vec<ResultItem>) -> (r: Vec<ResultItem>)
    ensures
        r@.to_multiset() == items@.to_multiset(),
        sorted_by_distance(r@),
        forall|d: i128| #[trigger] r@.filter(dist_is(d)) == items@.filter(dist_is(d)),
{
    let mut out: Vec<ResultItem> = Vec::new();
    let mut i: usize = 0;
    assert(items@.take(0) =~= Seq::<ResultItem>::empty());
    while i < items.len()
        invariant
            0 <= i <= items@.len(),
            out@.to_multiset() == items@.take(i as int).to_multiset(),
            out@.len() == i,
            sorted_by_distance(out@),
            forall|d: i128| #[trigger] out@.filter(dist_is(d)) == items@.take(i as int).filter(dist_is(d)),
        decreases items@.len() - i,
    {
        let item = items[i];
        let ghost before = out@;
        proof {
            lemma_insertion_pos_bounds(out@, item, false);
            lemma_bounded_insert_ordered(out@, item, usize::MAX as nat, false);
            lemma_insert_multiset(out@, insertion_pos(out@, item, false), item);
            assert(items@.take(i + 1) =~= items@.take(i as int).push(item));
        }
        insert_sorted_bounded(&mut out, item, usize::MAX, false);
        assert(out@ == before.insert(insertion_pos(before, item, false), item));
        proof {
            let p = insertion_pos(before, item, false);
            assert forall|d: i128| #[trigger] out@.filter(dist_is(d)) == items@.take(i + 1).filter(dist_is(d)) by {
                lemma_insert_filter(before, p, item, d);
                items@.take(i as int).lemma_filter_push(item, dist_is(d));
            }
        }
        i = i + 1;
    }
    assert(items@.take(items@.len() as int) =~= items@);
    out
}

/// Whether an item lies at distance `d`.
pub open spec fn dist_is(d: i128) -> spec_fn(ResultItem) -> bool {
    |y: ResultItem| y.distance == d
}

/// Inserting `x` before the items farther than it adds `x` at the end of the
/// items at its distance, and leaves the items at every other distance alone.
proof fn lemma_insert_filter(s: Seq<ResultItem>, p: int, x: ResultItem, d: i128)
    requires
        0 <= p <= s.len(),
        forall|k: int| p <= k < s.len() ==> (#[trigger] s[k]).distance > x.distance,
    ensures
        s.insert(p, x).filter(dist_is(d)) == if x.distance == d {
            s.filter(dist_is(d)).push(x)
        } else {
            s.filter(dist_is(d))
        },
{
    let f = dist_is(d);
    let a = s.take(p);
    let b = s.skip(p);
    assert(s.insert(p, x) =~= a + seq![x] + b);
    assert(s =~= a + b);
    Seq::filter_distributes_over_add(a + seq![x], b, f);
    Seq::filter_distributes_over_add(a, seq![x], f);
    Seq::filter_distributes_over_add(a, b, f);
    Seq::<ResultItem>::empty().lemma_filter_push(x, f);
    assert(seq![x] =~= Seq::<ResultItem>::empty().push(x));
    reveal(Seq::filter);
    assert(Seq::<ResultItem>::empty().filter(f) =~= Seq::<ResultItem>::empty());
    if x.distance == d {
        assert(b.all(|y: ResultItem| !f(y))) by {
            assert forall|k: int| 0 <= k < b.len() implies !f(#[trigger] b[k]) by {
                assert(b[k] == s[p + k]);
            }
        }
        b.lemma_all_neg_filter_empty(f);
        assert(b.filter(f) =~= Seq::<ResultItem>::empty());
        assert(a.filter(f) + seq![x] + b.filter(f) =~= (a.filter(f) + b.filter(f)).push(x));
    } else {
        assert(a.filter(f) + Seq::<ResultItem>::empty() + b.filter(f) =~= a.filter(f) + b.filter(f));
    }
}

proof fn lemma_insert_multiset(s: Seq<ResultItem>, p: int, x: ResultItem)
    requires
        0 <= p <= s.len(),
    ensures
        s.insert(p, x).to_multiset() == s.to_multiset().insert(x),
{
    let t = s.insert(p, x);
    s.insert_ensures(p, x);
    assert(t.remove(p) =~= s);
    assert(t.remove(p).to_multiset() =~= t.to_multiset().remove(t[p]));
    assert(t.contains(x));
    assert(t.to_multiset().count(x) > 0);
    assert(t.to_multiset() =~= t.to_multiset().remove(x).insert(x));
}

/// Result set for k-nearest-neighbor queries.
pub struct KnnResultSet {
    pub set: Collector,
}

impl KnnResultSet {
    /// The items collected so far, nearest first.
    pub open spec fn spec_items(&self) -> Seq<ResultItem> {
        self.set.items@
    }

    /// The number of items kept.
    pub open spec fn spec_capacity(&self) -> usize {
        self.set.capacity
    }

    /// Whether equal distances are ordered by index.
    pub open spec fn spec_first_match(&self) -> bool {
        self.set.first_match
    }

    /// An empty set for `capacity` neighbors.
    pub fn new(capacity: usize) -> (r: Self)
        ensures
            r.spec_items() == Seq::<ResultItem>::empty(),
            r.spec_capacity() == capacity,
            !r.spec_first_match(),
    {
        Self::with_first_match(capacity, false)
    }

    /// An empty set for `capacity` neighbors that orders equal distances by index when asked.
    pub fn with_first_match(capacity: usize, first_match: bool) -> (r: Self)
        ensures
            r.set.wf(),
            r.set.bounded,
            r.set.radius == i128::MAX,
            r.spec_items() == Seq::<ResultItem>::empty(),
            r.spec_capacity() == capacity,
            r.spec_first_match() == first_match,
    {
        KnnResultSet { set: Collector::bounded(capacity, i128::MAX, first_match) }
    }

    /// The items collected so far.
    pub fn items(&self) -> (r: &[ResultItem])
        ensures
            r@ == self.spec_items(),
    {
        self.set.items.as_slice()
    }

    /// The items collected, consuming the set.
    pub fn into_vec(self) -> (r: Vec<ResultItem>)
        ensures
            r@ == self.spec_items(),
    {
        self.set.items
    }
}

/// Result set for radius-limited k-nearest-neighbor queries.
pub struct RknnResultSet {
    pub set: Collector,
}

impl RknnResultSet {
    /// The items collected so far, nearest first.
    pub open spec fn spec_items(&self) -> Seq<ResultItem> {
        self.set.items@
    }

    /// The number of items kept.
    pub open spec fn spec_capacity(&self) -> usize {
        self.set.capacity
    }

    /// The distance that items must stay below.
    pub open spec fn spec_radius(&self) -> i128 {
        self.set.radius
    }

    /// Whether equal distances are ordered by index.
    pub open spec fn spec_first_match(&self) -> bool {
        self.set.first_match
    }

    /// An empty set for `capacity` neighbors below `radius`.
    pub fn new(capacity: usize, radius: i128) -> (r: Self)
        ensures
            r.spec_items() == Seq::<ResultItem>::empty(),
            r.spec_capacity() == capacity,
            r.spec_radius() == radius,
            !r.spec_first_match(),
    {
        Self::with_first_match(capacity, radius, false)
    }

    /// An empty set for `capacity` neighbors below `radius` that orders equal
    /// distances by index when asked.
    pub fn with_first_match(capacity: usize, radius: i128, first_match: bool) -> (r: Self)
        ensures
            r.set.wf(),
            r.set.bounded,
            r.spec_items() == Seq::<ResultItem>::empty(),
            r.spec_capacity() == capacity,
            r.spec_radius() == radius,
            r.spec_first_match() == first_match,
    {
        RknnResultSet { set: Collector::bounded(capacity, radius, first_match) }
    }

    /// The items collected so far.
    pub fn items(&self) -> (r: &[ResultItem])
        ensures
            r@ == self.spec_items(),
    {
        self.set.items.as_slice()
    }

    /// The items collected, consuming the set.
    pub fn into_vec(self) -> (r: Vec<ResultItem>)
        ensures
            r@ == self.spec_items(),
    {
        self.set.items
    }
}

/// Result set for radius queries. The radius comparison is strict (`distance < radius`).
pub struct RadiusResultSet {
    pub set: Collector,
}

impl RadiusResultSet {
    /// The items collected so far.
    pub open spec fn spec_items(&self) -> Seq<ResultItem> {
        self.set.items@
    }

    /// The distance that items must stay below.
    pub open spec fn spec_radius(&self) -> i128 {
        self.set.radius
    }

    /// An empty set for items below `radius`.
    pub fn new(radius: i128) -> (r: Self)
        ensures
            r.set.wf(),
            !r.set.bounded,
            r.spec_items() == Seq::<ResultItem>::empty(),
            r.spec_radius() == radius,
    {
        RadiusResultSet { set: Collector::unbounded(radius) }
    }

    /// An empty set for items below `radius`; `capacity` only reserves room.
    pub fn with_capacity(radius: i128, capacity: usize) -> (r: Self)
        ensures
            r.spec_items() == Seq::<ResultItem>::empty(),
            r.spec_radius() == radius,
    {
        RadiusResultSet {
            set: Collector {
                bounded: false,
                capacity: 0,
                radius,
                first_match: false,
                items: Vec::with_capacity(capacity),
            },
        }
    }

    /// The items collected so far.
    pub fn items(&self) -> (r: &[ResultItem])
        ensures
            r@ == self.spec_items(),
    {
        self.set.items.as_slice()
    }

    /// The items collected, consuming the set.
    pub fn into_vec(self) -> (r: Vec<ResultItem>)
        ensures
            r@ == self.spec_items(),
    {
        self.set.items
    }

    /// The item with the largest distance; among equal largest distances the last one.
    pub fn worst_item(&self) -> (r: Option<ResultItem>)
        ensures
            r is None <==> self.spec_items().len() == 0,
            r matches Some(w) ==> {
                &&& self.spec_items().contains(w)
                &&& forall|k: int| 0 <= k < self.spec_items().len() ==> (#[trigger] self.spec_items()[k]).distance <= w.distance
                &&& forall|k: int| 0 <= k < self.spec_items().len() && (#[trigger] self.spec_items()[k]).distance == w.distance
                    ==> exists|j: int| k <= j < self.spec_items().len() && self.spec_items()[j] == w
            },
    {
        let items = &self.set.items;
        if items.len() == 0 {
            return None;
        }
        let mut best: usize = 0;
        let mut i: usize = 1;
        while i < items.len()
            invariant
                1 <= i <= items@.len(),
                best < i,
                forall|k: int| 0 <= k < i ==> (#[trigger] items@[k]).distance <= items@[best as int].distance,
                forall|k: int| 0 <= k < i && (#[trigger] items@[k]).distance == items@[best as int].distance ==> k <= best,
            decreases items@.len() - i,
        {
            if items[i].distance >= items[best].distance {
                best = i;
            }
            i = i + 1;
        }
        Some(items[best])
    }
}

} // verus!
