use vstd::prelude::*;

use crate::error::{KdTreeError, Result};
use crate::tree::Interval;

verus! {

/// Data source interface expected by the KD-tree: a number of points, each with
/// `spec_point_dim()` integer coordinates.
pub trait KdTreeDataset {
    /// Number of points currently exposed by the dataset.
    spec fn spec_point_count(&self) -> nat;

    /// Number of components that every point has.
    spec fn spec_point_dim(&self) -> nat;

    /// Component `dim` of point `idx`.
    spec fn spec_pt(&self, idx: int, dim: int) -> i32;

    /// Number of points currently exposed by the dataset.
    fn kdtree_get_point_count(&self) -> (n: usize)
        ensures
            n == self.spec_point_count(),
    ;

    /// Component `dim` of point `idx`.
    fn kdtree_get_pt(&self, idx: usize, dim: usize) -> (v: i32)
        requires
            idx < self.spec_point_count(),
            dim < self.spec_point_dim(),
        ensures
            v == self.spec_pt(idx as int, dim as int),
    ;

    /// The precomputed bounding box the dataset offers, if any.
    spec fn spec_bbox(&self) -> Option<Seq<Interval>>;

    /// Optional precomputed bounding box. Returns `true` if `bbox` was filled
    /// with `spec_bbox()`; otherwise `bbox` is left as it was.
    fn kdtree_get_bbox(&self, bbox: &mut Vec<Interval>) -> (filled: bool)
        ensures
            filled == self.spec_bbox() is Some,
            filled ==> final(bbox)@ == self.spec_bbox()->0,
            !filled ==> final(bbox)@ == old(bbox)@,
    ;
}

/// The first `size` components of point `idx` of `dataset`.
pub open spec fn point_prefix<D: KdTreeDataset>(dataset: &D, idx: int, size: nat) -> Seq<i32> {
    Seq::new(size, |d: int| dataset.spec_pt(idx, d))
}

/// Simple in-memory point-cloud dataset: every row has `dim` components.
#[derive(Debug)]
pub struct PointCloud {
    points: Vec<Vec<i32>>,
    dim: usize,
}

/// The rows of `points` as sequences.
pub open spec fn rows_view(points: Seq<Vec<i32>>) -> Seq<Seq<i32>> {
    points.map_values(|r: Vec<i32>| r@)
}

/// Every row of `rows` has `dim` components.
pub open spec fn rows_have_dim(rows: Seq<Seq<i32>>, dim: nat) -> bool {
    forall|i: int| 0 <= i < rows.len() ==> (#[trigger] rows[i]).len() == dim
}

impl View for PointCloud {
    type V = Seq<Seq<i32>>;

    closed spec fn view(&self) -> Seq<Seq<i32>> {
        rows_view(self.points@)
    }
}

impl PointCloud {
    #[verifier::type_invariant]
    closed spec fn rows_consistent(self) -> bool {
        rows_have_dim(rows_view(self.points@), self.dim as nat)
    }

    /// Component `d` of point `i` of a cloud is entry `d` of row `i`.
    pub proof fn lemma_points_of_cloud(&self, i: int, d: int)
        requires
            0 <= i < self.spec_point_count(),
            0 <= d < self.spec_point_dim(),
        ensures
            self.spec_pt(i, d) == self@[i][d],
    {
    }

    /// The dimension that every point has.
    pub closed spec fn spec_dim(&self) -> nat {
        self.dim as nat
    }

    /// Creates a point cloud after checking that all rows share the dimension of
    /// the first row. On failure the error names the first row that differs.
    pub fn new(points: Vec<Vec<i32>>) -> (res: Result<Self>)
        ensures
            match res {
                Ok(cloud) => {
                    &&& rows_view(points@) == cloud@
                    &&& cloud.spec_dim() == (if points@.len() == 0 { 0 } else { points@[0]@.len() })
                },
                Err(e) => {
                    &&& points@.len() > 0
                    &&& exists|row: int|
                        #![trigger points@[row]]
                        0 < row < points@.len() && points@[row]@.len() != points@[0]@.len()
                            && (forall|j: int| 0 <= j < row ==> (#[trigger] points@[j])@.len() == points@[0]@.len())
                            && e == KdTreeError::InconsistentPointDimensionality {
                                expected: points@[0]@.len() as usize,
                                got: points@[row]@.len() as usize,
                                row: row as usize,
                            }
                },
            },
            res is Ok <==> rows_have_dim(rows_view(points@), if points@.len() == 0 { 0 } else { points@[0]@.len() }),
    {
        let dim: usize = if points.len() == 0 { 0 } else { points[0].len() };
        let mut row: usize = 0;
        while row < points.len()
            invariant
                0 <= row <= points@.len(),
                dim == (if points@.len() == 0 { 0 } else { points@[0]@.len() }),
                forall|j: int| 0 <= j < row ==> (#[trigger] points@[j])@.len() == dim,
            decreases points@.len() - row,
        {
            if points[row].len() != dim {
                let got = points[row].len();
                assert(row > 0);
                assert(!rows_have_dim(rows_view(points@), dim as nat)) by {
                    assert(rows_view(points@)[row as int].len() == got);
                }
                return Err(KdTreeError::InconsistentPointDimensionality { expected: dim, got, row });
            }
            row = row + 1;
        }
        assert(rows_have_dim(rows_view(points@), dim as nat));
        Ok(PointCloud { points, dim })
    }

    /// Creates an empty point cloud with a known point dimension.
    pub fn empty(dim: usize) -> (cloud: Self)
        ensures
            cloud@ == Seq::<Seq<i32>>::empty(),
            cloud.spec_dim() == dim,
    {
        let cloud = PointCloud { points: Vec::new(), dim };
        assert(cloud@ =~= Seq::<Seq<i32>>::empty());
        cloud
    }

    /// Appends one point and returns its index, or reports that the point has
    /// another dimension than the cloud.
    pub fn push(&mut self, point: Vec<i32>) -> (res: Result<usize>)
        ensures
            final(self).spec_dim() == old(self).spec_dim(),
            point@.len() == old(self).spec_dim() ==> {
                &&& res == Ok::<usize, KdTreeError>(old(self)@.len() as usize)
                &&& final(self)@ == old(self)@.push(point@)
            },
            point@.len() != old(self).spec_dim() ==> {
                &&& res == Err::<usize, KdTreeError>(KdTreeError::InconsistentPointDimensionality {
                    expected: old(self).spec_dim() as usize,
                    got: point@.len() as usize,
                    row: old(self)@.len() as usize,
                })
                &&& final(self)@ == old(self)@
            },
    {
        proof { use_type_invariant(&*self); }
        if point.len() != self.dim {
            return Err(KdTreeError::InconsistentPointDimensionality {
                expected: self.dim,
                got: point.len(),
                row: self.points.len(),
            });
        }
        let idx = self.points.len();
        let ghost old_points = self.points@;
        let mut points: Vec<Vec<i32>> = Vec::new();
        std::mem::swap(&mut points, &mut self.points);
        points.push(point);
        assert(rows_view(points@) =~= rows_view(old_points).push(point@));
        std::mem::swap(&mut points, &mut self.points);
        Ok(idx)
    }

    /// Number of points.
    pub fn len(&self) -> (n: usize)
        ensures
            n == self@.len(),
    {
        self.points.len()
    }

    /// Whether the cloud holds no point.
    pub fn is_empty(&self) -> (b: bool)
        ensures
            b == (self@.len() == 0),
    {
        self.points.len() == 0
    }

    /// The dimension that every point has.
    pub fn dim(&self) -> (d: usize)
        ensures
            d == self.spec_dim(),
    {
        self.dim
    }

    /// The rows of the cloud.
    pub fn points(&self) -> (rows: &[Vec<i32>])
        ensures
            rows_view(rows@) == self@,
    {
        self.points.as_slice()
    }
}

impl KdTreeDataset for PointCloud {
    open spec fn spec_point_count(&self) -> nat {
        self@.len()
    }

    open spec fn spec_point_dim(&self) -> nat {
        self.spec_dim()
    }

    open spec fn spec_pt(&self, idx: int, dim: int) -> i32 {
        self@[idx][dim]
    }

    open spec fn spec_bbox(&self) -> Option<Seq<Interval>> {
        None
    }

    fn kdtree_get_bbox(&self, bbox: &mut Vec<Interval>) -> (filled: bool) {
        false
    }

    fn kdtree_get_point_count(&self) -> (n: usize) {
        self.points.len()
    }

    fn kdtree_get_pt(&self, idx: usize, dim: usize) -> (v: i32)
        ensures
            v == self@[idx as int][dim as int],
    {
        proof {
            use_type_invariant(self);
            assert(rows_view(self.points@)[idx as int].len() == self.dim);
        }
        self.points[idx][dim]
    }
}

/// Interpretation of a flat row-major matrix buffer.
#[derive(Clone, Copy, Debug, PartialEq, Eq, Structural)]
pub enum MatrixLayout {
    /// Each matrix row is one point. Point dimension is `cols`.
    RowMajorPoints,
    /// Each matrix column is one point. Point dimension is `rows`.
    ColumnMajorPoints,
}

/// Flat matrix dataset adaptor. The backing matrix is stored as a row-major
/// flat buffer regardless of whether rows or columns are read as points.
#[derive(Debug)]
pub struct MatrixDataset {
    data: Vec<i32>,
    rows: usize,
    cols: usize,
    layout: MatrixLayout,
}

impl MatrixDataset {
    /// The points of a matrix stored row by row in `data`: with row points,
    /// component `d` of point `i` is the entry at row `i`, column `d`; with
    /// column points, it is the entry at row `d`, column `i`.
    pub proof fn lemma_points_of_matrix(&self, i: int, d: int)
        requires
            0 <= i < self.spec_point_count(),
            0 <= d < self.spec_point_dim(),
        ensures
            self.spec_layout() == MatrixLayout::RowMajorPoints ==> self.spec_pt(i, d) == self.spec_data()[i * self.spec_cols() + d],
            self.spec_layout() == MatrixLayout::ColumnMajorPoints ==> self.spec_pt(i, d) == self.spec_data()[d * self.spec_cols()
                + i],
    {
    }

    #[verifier::type_invariant]
    closed spec fn buffer_fits(self) -> bool {
        self.data@.len() == self.rows * self.cols
    }

    /// The flat row-major buffer.
    pub closed spec fn spec_data(&self) -> Seq<i32> {
        self.data@
    }

    /// Number of matrix rows.
    pub closed spec fn spec_rows(&self) -> usize {
        self.rows
    }

    /// Number of matrix columns.
    pub closed spec fn spec_cols(&self) -> usize {
        self.cols
    }

    /// How points are laid out.
    pub closed spec fn spec_layout(&self) -> MatrixLayout {
        self.layout
    }

    /// Wraps `data` as a `rows x cols` matrix; fails unless `data` has exactly
    /// `rows * cols` entries (the product saturating at `usize::MAX`).
    pub fn new(data: Vec<i32>, rows: usize, cols: usize, layout: MatrixLayout) -> (res: Result<Self>)
        ensures
            match res {
                Ok(m) => {
                    &&& data@.len() == rows * cols
                    &&& m.spec_data() == data@
                    &&& m.spec_rows() == rows
                    &&& m.spec_cols() == cols
                    &&& m.spec_layout() == layout
                },
                Err(e) => e == KdTreeError::MatrixSizeMismatch { rows, cols, len: data@.len() as usize },
            },
            res is Ok <==> data@.len() == rows * cols,
    {
        // A product beyond `usize::MAX` cannot be the length of a buffer.
        let fits = match rows.checked_mul(cols) {
            Some(p) => data.len() == p,
            None => false,
        };
        if !fits {
            return Err(KdTreeError::MatrixSizeMismatch { rows, cols, len: data.len() });
        }
        Ok(MatrixDataset { data, rows, cols, layout })
    }

    /// Number of components of each point: `cols` for row points, `rows` for column points.
    pub fn point_dim(&self) -> (d: usize)
        ensures
            d == (match self.spec_layout() {
                MatrixLayout::RowMajorPoints => self.spec_cols(),
                MatrixLayout::ColumnMajorPoints => self.spec_rows(),
            }),
    {
        match self.layout {
            MatrixLayout::RowMajorPoints => self.cols,
            MatrixLayout::ColumnMajorPoints => self.rows,
        }
    }

    /// Number of matrix rows.
    pub fn rows(&self) -> (r: usize)
        ensures
            r == self.spec_rows(),
    {
        self.rows
    }

    /// Number of matrix columns.
    pub fn cols(&self) -> (c: usize)
        ensures
            c == self.spec_cols(),
    {
        self.cols
    }

    /// How points are laid out.
    pub fn layout(&self) -> (l: MatrixLayout)
        ensures
            l == self.spec_layout(),
    {
        self.layout
    }
}

proof fn lemma_flat_index(i: int, j: int, n: int, m: int)
    by (nonlinear_arith)
    requires
        0 <= i < n,
        0 <= j < m,
    ensures
        0 <= i * m + j < n * m,
{
}

impl KdTreeDataset for MatrixDataset {
    open spec fn spec_point_count(&self) -> nat {
        match self.spec_layout() {
            MatrixLayout::RowMajorPoints => self.spec_rows() as nat,
            MatrixLayout::ColumnMajorPoints => self.spec_cols() as nat,
        }
    }

    open spec fn spec_point_dim(&self) -> nat {
        match self.spec_layout() {
            MatrixLayout::RowMajorPoints => self.spec_cols() as nat,
            MatrixLayout::ColumnMajorPoints => self.spec_rows() as nat,
        }
    }

    open spec fn spec_pt(&self, idx: int, dim: int) -> i32 {
        match self.spec_layout() {
            MatrixLayout::RowMajorPoints => self.spec_data()[idx * self.spec_cols() + dim],
            MatrixLayout::ColumnMajorPoints => self.spec_data()[dim * self.spec_cols() + idx],
        }
    }

    open spec fn spec_bbox(&self) -> Option<Seq<Interval>> {
        None
    }

    fn kdtree_get_bbox(&self, bbox: &mut Vec<Interval>) -> (filled: bool) {
        false
    }

    fn kdtree_get_point_count(&self) -> (n: usize) {
        match self.layout {
            MatrixLayout::RowMajorPoints => self.rows,
            MatrixLayout::ColumnMajorPoints => self.cols,
        }
    }

    fn kdtree_get_pt(&self, idx: usize, dim: usize) -> (v: i32)
        ensures
            self.spec_layout() == MatrixLayout::RowMajorPoints ==> v == self.spec_data()[idx * self.spec_cols() + dim],
            self.spec_layout() == MatrixLayout::ColumnMajorPoints ==> v == self.spec_data()[dim * self.spec_cols() + idx],
    {
        proof { use_type_invariant(self); }
        let _n = self.data.len();
        match self.layout {
            MatrixLayout::RowMajorPoints => {
                proof {
                    lemma_flat_index(idx as int, dim as int, self.rows as int, self.cols as int);
                    assert(self.data@.len() == self.rows * self.cols);
                    assert(idx * self.cols + dim < self.data@.len());
                }
                let base = idx * self.cols;
                self.data[base + dim]
            },
            MatrixLayout::ColumnMajorPoints => {
                proof {
                    lemma_flat_index(dim as int, idx as int, self.rows as int, self.cols as int);
                    assert(self.data@.len() == self.rows * self.cols);
                    assert(dim * self.cols + idx < self.data@.len());
                }
                let base = dim * self.cols;
                self.data[base + idx]
            },
        }
    }
}

} // verus!
