//! KD-tree over integer point coordinates: adaptor-style datasets, squared L2
//! distances, strict radius comparisons, inclusive box search, a portable
//! saved form of the index, and a dynamic logarithmic multi-tree wrapper with
//! lazy deletion.

mod codec;
mod dataset;
mod dynamic;
mod error;
mod metric;
mod perm;
mod result_set;
mod search;
mod tree;

pub use codec::{read_index, read_u64, write_index, write_u64};
pub use dataset::{KdTreeDataset, MatrixDataset, MatrixLayout, PointCloud};
pub use dynamic::{floor_log2, DynamicKdTree};
pub use error::{BoundingBoxProblem, IndexFileProblem, KdTreeError, Result};
pub use metric::{DistanceMetric, L1, L2, L2Simple, SO2, SO3};
pub use result_set::{KnnResultSet, RadiusResultSet, ResultItem, RknnResultSet};
pub use tree::{Interval, KdTree, KdTreeIndex, KdTreeParams, Node, SearchParameters};
