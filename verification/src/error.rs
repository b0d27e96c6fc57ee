use vstd::prelude::*;

verus! {

/// What made a bounding box unusable.
#[derive(Clone, Copy, Debug, PartialEq, Eq, Structural)]
pub enum BoundingBoxProblem {
    /// A bounding box was requested for an index that holds no point.
    EmptyIndex,
    /// The interval of `dimension` has `high < low`.
    HighBelowLow { dimension: usize },
    /// A split plane did not leave points on both of its sides.
    SplitFailed,
}

/// What made serialized index data unusable.
#[derive(Clone, Copy, Debug, PartialEq, Eq, Structural)]
pub enum IndexFileProblem {
    /// The data does not start with the index magic bytes.
    BadMagic,
    /// The data ended before the structure it describes was complete.
    UnexpectedEnd,
    /// The saved dimensionality differs from the tree's.
    DimensionalityMismatch { saved: usize, expected: usize },
    /// The saved bounding box has a number of intervals other than the tree's dimensionality.
    BoundingBoxDimensionalityMismatch { saved: usize, expected: usize },
    /// The byte that announces the root node is neither 0 nor 1.
    InvalidRootPresence { byte: u8 },
    /// A node starts with a tag other than 0 (leaf) or 1 (split).
    InvalidNodeTag { tag: u8 },
    /// A saved count or point index exceeds `usize`, or a saved coordinate is not
    /// the bit pattern of a double that holds an `i32`.
    ValueOutOfRange,
    /// The saved structure is not a valid index of the dataset's points.
    InconsistentIndex,
}

/// Errors returned by the KD-tree API.
#[derive(Clone, Copy, Debug, PartialEq, Eq, Structural)]
pub enum KdTreeError {
    /// The tree dimensionality must be greater than zero.
    InvalidDimensionality,
    /// `leaf_max_size == 0` is rejected during construction.
    InvalidLeafMaxSize,
    /// A query slice did not contain enough components for the tree dimension.
    QueryDimensionalityMismatch { expected_at_least: usize, got: usize },
    /// A bounding box did not match the tree dimension.
    BoundingBoxDimensionalityMismatch { expected: usize, got: usize },
    /// A bounding box had an invalid shape or bounds.
    InvalidBoundingBox(BoundingBoxProblem),
    /// A search was made before an index was built.
    IndexNotBuilt,
    /// The dataset does not contain points required by an index operation.
    IndexOutOfBounds { index: usize, len: usize },
    /// Dynamic insertion must be contiguous unless it reactivates a lazily removed point.
    NonContiguousInsertion { expected: usize, got: usize },
    /// The configured dynamic index capacity has been exceeded.
    MaximumPointCountExceeded { maximum_point_count: usize },
    /// Point-cloud construction received rows with inconsistent dimensionality.
    InconsistentPointDimensionality { expected: usize, got: usize, row: usize },
    /// A flat matrix buffer length was not `rows * cols`.
    MatrixSizeMismatch { rows: usize, cols: usize, len: usize },
    /// A static index takes at most `u32::MAX` points.
    DatasetTooLarge { point_count: usize },
    /// Binary index data was not produced by this crate's serializer.
    InvalidIndexFile(IndexFileProblem),
}

/// Crate-local result type.
pub type Result<T> = core::result::Result<T, KdTreeError>;

} // verus!
