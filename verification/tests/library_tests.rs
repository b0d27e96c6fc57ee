use lib::{
    floor_log2, read_u64, write_u64, BoundingBoxProblem, DistanceMetric, DynamicKdTree, IndexFileProblem, Interval,
    KdTree, KdTreeError, KdTreeParams, KnnResultSet, L2Simple, MatrixDataset, MatrixLayout, PointCloud,
    RadiusResultSet, ResultItem, RknnResultSet, SearchParameters, L1, L2, SO2, SO3,
};

fn sample_points() -> Vec<Vec<i32>> {
    vec![vec![0, 0], vec![10, 0], vec![0, 20], vec![20, 20], vec![-10, 10], vec![30, -10], vec![10, 10]]
}

fn sample_cloud() -> PointCloud {
    PointCloud::new(sample_points()).unwrap()
}

fn brute(points: &[Vec<i32>], query: &[i32]) -> Vec<(usize, i128)> {
    let mut out: Vec<(usize, i128)> = points
        .iter()
        .enumerate()
        .map(|(i, p)| {
            let d: i128 = p.iter().zip(query).map(|(a, b)| (*a as i128 - *b as i128) * (*a as i128 - *b as i128)).sum();
            (i, d)
        })
        .collect();
    out.sort_by(|a, b| a.1.cmp(&b.1).then(a.0.cmp(&b.0)));
    out
}

fn pairs(items: &[ResultItem]) -> Vec<(usize, i128)> {
    items.iter().map(|item| (item.index, item.distance)).collect()
}

fn saved_sample() -> Vec<u8> {
    let cloud = sample_cloud();
    let tree = KdTree::new(2, &cloud, L2, KdTreeParams::default()).unwrap();
    let mut bytes = Vec::new();
    tree.save_index(&mut bytes);
    bytes
}

fn load_into_sample(bytes: &[u8]) -> Result<(), KdTreeError> {
    let cloud = sample_cloud();
    let params = KdTreeParams { skip_initial_build: true, ..Default::default() };
    let mut tree = KdTree::new(2, &cloud, L2, params).unwrap();
    tree.load_index(bytes)
}

fn file_error(problem: IndexFileProblem) -> Result<(), KdTreeError> {
    Err(KdTreeError::InvalidIndexFile(problem))
}

#[test]
fn metrics_give_exact_distances() {
    let cloud = PointCloud::new(vec![vec![2, -1, 4]]).unwrap();
    let query = [1, 2, 3];
    assert_eq!(SO3.eval_metric(&cloud, &query, 0, 3, None), 11);
    assert_eq!(L2.eval_metric(&cloud, &query, 0, 2, None), 10);
    assert_eq!(L1.accum_dist(1, 4, 0), 3);
    assert_eq!(L2.accum_dist(1, 4, 0), 9);
    assert_eq!(L2Simple.accum_dist(-3, 4, 1), 49);
    assert_eq!(SO2.accum_dist(10, 30, 0), 20);
}

#[test]
fn summing_metrics_stop_once_past_the_worst_distance() {
    let cloud = PointCloud::new(vec![vec![2, -1, 4]]).unwrap();
    let query = [1, 2, 3];
    // Terms 1, 3, 1: the running sum first exceeds 3 at 4.
    assert_eq!(L1.eval_metric(&cloud, &query, 0, 3, Some(3)), 4);
    // Terms 1, 9, 1: the running sum first exceeds 5 at 10.
    assert_eq!(L2.eval_metric(&cloud, &query, 0, 3, Some(5)), 10);
    // A bound that is never exceeded, or not positive, changes nothing.
    assert_eq!(L2.eval_metric(&cloud, &query, 0, 3, Some(100)), 11);
    assert_eq!(L2.eval_metric(&cloud, &query, 0, 3, Some(0)), 11);
    // L2Simple never stops early.
    assert_eq!(L2Simple.eval_metric(&cloud, &query, 0, 3, Some(5)), 11);
}

#[test]
fn so2_uses_the_last_component_and_wraps_both_ways() {
    let half_turn: i32 = i32::MAX;
    let cloud = PointCloud::new(vec![vec![7, half_turn]]).unwrap();
    // From -half_turn to half_turn is almost a full turn forward: two steps back.
    assert_eq!(SO2.eval_metric(&cloud, &[0, -half_turn], 0, 2, None), -2);
    assert_eq!(SO2.accum_dist(half_turn, -half_turn, 0), -2 * half_turn as i128 + (1i128 << 32));
    assert_eq!(SO2.accum_dist(-5, 5, 0), 10);
}

#[test]
fn knn_search_returns_the_nearest_in_order() {
    let cloud = sample_cloud();
    let tree = KdTree::new(2, &cloud, L2, KdTreeParams { leaf_max_size: 1, ..Default::default() }).unwrap();
    for query in [[9, 2], [0, 0], [-20, 30], [100, -100], [10, 10]] {
        let expected = brute(&sample_points(), &query);
        for k in 0..9 {
            let got = tree.knn_search(&query, k).unwrap();
            let want: Vec<i128> = expected.iter().take(k).map(|p| p.1).collect();
            let got_d: Vec<i128> = got.iter().map(|item| item.distance).collect();
            assert_eq!(got_d, want);
        }
    }
}

#[test]
fn first_match_orders_equal_distances_by_index() {
    let cloud = sample_cloud();
    let params = KdTreeParams { first_match: true, leaf_max_size: 1, ..Default::default() };
    let tree = KdTree::new(2, &cloud, L2, params).unwrap();
    // Points 0 and 1 are both at distance 25 from [5, 0].
    let got = tree.knn_search(&[5, 0], 2).unwrap();
    assert_eq!(pairs(&got), vec![(0, 25), (1, 25)]);
}

#[test]
fn radius_search_unsorted_finds_the_same_points() {
    let cloud = sample_cloud();
    let tree = KdTree::new(2, &cloud, L2, KdTreeParams::default()).unwrap();
    let got = tree.radius_search_with_params(&[0, 0], 401, SearchParameters { eps: 0, sorted: false }).unwrap();
    let mut got = pairs(&got);
    got.sort();
    assert_eq!(got, vec![(0, 0), (1, 100), (2, 400), (4, 200), (6, 200)]);
}

#[test]
fn approximate_search_reports_true_distances() {
    let cloud = sample_cloud();
    let tree = KdTree::new(2, &cloud, L2, KdTreeParams { leaf_max_size: 1, ..Default::default() }).unwrap();
    let got = tree.knn_search_with_params(&[9, 2], 3, SearchParameters { eps: 5, sorted: true }).unwrap();
    let all = brute(&sample_points(), &[9, 2]);
    assert_eq!(got.len(), 3);
    for item in &got {
        assert!(all.contains(&(item.index, item.distance)));
    }
    assert!(got.windows(2).all(|w| w[0].distance <= w[1].distance));
    // The last item is within the factor `1 + eps` of the third nearest distance.
    assert!(got[2].distance <= 6 * all[2].1);
}

#[test]
fn build_index_covers_every_point_with_a_tight_box() {
    let cloud = sample_cloud();
    let tree = KdTree::new(2, &cloud, L2, KdTreeParams::default()).unwrap();
    assert_eq!(tree.size(), 7);
    assert_eq!(tree.size_at_index_build(), 7);
    assert_eq!(tree.dim(), 2);
    assert_eq!(tree.params(), KdTreeParams::default());
    assert_eq!(tree.root_bbox(), &[Interval::new(-10, 30), Interval::new(-10, 20)]);
}

#[test]
fn find_within_box_matches_brute_force() {
    let cloud = sample_cloud();
    let tree = KdTree::new(2, &cloud, L2, KdTreeParams { leaf_max_size: 2, ..Default::default() }).unwrap();
    let boxes = [
        [Interval::new(-10, 0), Interval::new(0, 10)],
        [Interval::new(0, 30), Interval::new(-10, 20)],
        [Interval::new(50, 60), Interval::new(0, 10)],
        [Interval::new(10, 10), Interval::new(10, 10)],
    ];
    for bbox in boxes {
        let mut got = tree.find_within_box(&bbox).unwrap();
        got.sort_unstable();
        let want: Vec<usize> = sample_points()
            .iter()
            .enumerate()
            .filter(|(_, p)| bbox[0].low <= p[0] && p[0] <= bbox[0].high && bbox[1].low <= p[1] && p[1] <= bbox[1].high)
            .map(|(i, _)| i)
            .collect();
        assert_eq!(got, want);
    }
}

#[test]
fn construction_errors() {
    let cloud = sample_cloud();
    assert_eq!(KdTree::new(0, &cloud, L2, KdTreeParams::default()).err(), Some(KdTreeError::InvalidDimensionality));
    let params = KdTreeParams { leaf_max_size: 0, ..Default::default() };
    assert_eq!(KdTree::new(2, &cloud, L2, params).err(), Some(KdTreeError::InvalidLeafMaxSize));
}

#[test]
fn query_errors() {
    let cloud = sample_cloud();
    let tree = KdTree::new(2, &cloud, L2, KdTreeParams::default()).unwrap();
    assert_eq!(
        tree.knn_search(&[1], 1),
        Err(KdTreeError::QueryDimensionalityMismatch { expected_at_least: 2, got: 1 })
    );
    assert_eq!(
        tree.find_within_box(&[Interval::new(0, 1)]),
        Err(KdTreeError::BoundingBoxDimensionalityMismatch { expected: 2, got: 1 })
    );
    assert_eq!(
        tree.find_within_box(&[Interval::new(0, 1), Interval::new(5, 1)]),
        Err(KdTreeError::InvalidBoundingBox(BoundingBoxProblem::HighBelowLow { dimension: 1 }))
    );
    let params = KdTreeParams { skip_initial_build: true, ..Default::default() };
    let unbuilt = KdTree::new(2, &cloud, L2, params).unwrap();
    assert_eq!(unbuilt.radius_search(&[0, 0], 10), Err(KdTreeError::IndexNotBuilt));
    assert_eq!(unbuilt.find_within_box(&[Interval::zero(), Interval::zero()]), Err(KdTreeError::IndexNotBuilt));
}

#[test]
fn empty_dataset_gives_empty_results() {
    let cloud = PointCloud::empty(2);
    let tree = KdTree::new(2, &cloud, L2, KdTreeParams::default()).unwrap();
    assert_eq!(tree.knn_search(&[0, 0], 3), Ok(vec![]));
    assert_eq!(tree.find_within_box(&[Interval::zero(), Interval::zero()]), Ok(vec![]));
}

#[test]
fn point_cloud_and_matrix_errors() {
    assert_eq!(
        PointCloud::new(vec![vec![1, 2], vec![3, 4], vec![5]]).err(),
        Some(KdTreeError::InconsistentPointDimensionality { expected: 2, got: 1, row: 2 })
    );
    let mut cloud = sample_cloud();
    assert_eq!(cloud.push(vec![1, 2, 3]), Err(KdTreeError::InconsistentPointDimensionality { expected: 2, got: 3, row: 7 }));
    assert_eq!(cloud.push(vec![1, 2]), Ok(7));
    assert_eq!(cloud.len(), 8);
    assert!(!cloud.is_empty());
    assert_eq!(cloud.dim(), 2);
    assert_eq!(
        MatrixDataset::new(vec![1, 2, 3], 2, 2, MatrixLayout::RowMajorPoints).err(),
        Some(KdTreeError::MatrixSizeMismatch { rows: 2, cols: 2, len: 3 })
    );
    let m = MatrixDataset::new(vec![1, 2, 3, 4, 5, 6], 2, 3, MatrixLayout::ColumnMajorPoints).unwrap();
    assert_eq!((m.rows(), m.cols(), m.point_dim(), m.layout()), (2, 3, 2, MatrixLayout::ColumnMajorPoints));
}

#[test]
fn saved_index_reads_back_unchanged() {
    let bytes = saved_sample();
    assert_eq!(&bytes[0..7], b"NKDRS01");
    let cloud = sample_cloud();
    let params = KdTreeParams { skip_initial_build: true, leaf_max_size: 3, ..Default::default() };
    let mut loaded = KdTree::new(2, &cloud, L2, params).unwrap();
    loaded.load_index(&bytes).unwrap();
    assert_eq!(loaded.params().leaf_max_size, 10);
    assert_eq!(loaded.size(), 7);
    let mut again = Vec::new();
    loaded.save_index(&mut again);
    assert_eq!(again, bytes);
    // Trailing bytes are not read.
    let mut longer = bytes.clone();
    longer.extend_from_slice(&[1, 2, 3]);
    assert_eq!(load_into_sample(&longer), Ok(()));
}

#[test]
fn saved_coordinates_are_doubles() {
    let bytes = saved_sample();
    let expected: Vec<u8> = [-10.0f64, 30.0, -10.0, 20.0].iter().flat_map(|x| x.to_le_bytes()).collect();
    assert_eq!(&bytes[111..143], &expected[..]);
    let cloud = PointCloud::new(vec![vec![i32::MIN, 0], vec![i32::MAX, 1]]).unwrap();
    let tree = KdTree::new(2, &cloud, L2, KdTreeParams::default()).unwrap();
    let mut saved = Vec::new();
    tree.save_index(&mut saved);
    let expected: Vec<u8> =
        [i32::MIN as f64, i32::MAX as f64, 0.0, 1.0].iter().flat_map(|x| x.to_le_bytes()).collect();
    assert_eq!(&saved[71..103], &expected[..]);
    let params = KdTreeParams { skip_initial_build: true, ..Default::default() };
    let mut loaded = KdTree::new(2, &cloud, L2, params).unwrap();
    loaded.load_index(&saved).unwrap();
    assert_eq!(loaded.root_bbox(), tree.root_bbox());
}

#[test]
fn load_index_rejects_malformed_data() {
    let bytes = saved_sample();
    assert_eq!(load_into_sample(&bytes[..5]), file_error(IndexFileProblem::UnexpectedEnd));
    assert_eq!(load_into_sample(&bytes[..50]), file_error(IndexFileProblem::UnexpectedEnd));
    assert_eq!(load_into_sample(&bytes[..bytes.len() - 1]), file_error(IndexFileProblem::UnexpectedEnd));

    let mut b = bytes.clone();
    b[0] = b'X';
    assert_eq!(load_into_sample(&b), file_error(IndexFileProblem::BadMagic));

    let mut b = bytes.clone();
    b[7] = 3;
    assert_eq!(load_into_sample(&b), file_error(IndexFileProblem::DimensionalityMismatch { saved: 3, expected: 2 }));

    // Layout: 47 header bytes, 7 entries of 8 bytes, the box length, 2
    // intervals of 16 bytes, the root presence byte, then the nodes.
    let mut b = bytes.clone();
    b[103] = 3;
    assert_eq!(
        load_into_sample(&b),
        file_error(IndexFileProblem::BoundingBoxDimensionalityMismatch { saved: 3, expected: 2 })
    );

    let mut b = bytes.clone();
    b[143] = 7;
    assert_eq!(load_into_sample(&b), file_error(IndexFileProblem::InvalidRootPresence { byte: 7 }));

    let mut b = bytes.clone();
    b[144] = 9;
    assert_eq!(load_into_sample(&b), file_error(IndexFileProblem::InvalidNodeTag { tag: 9 }));

    let mut b = bytes.clone();
    b[111..119].copy_from_slice(&[0, 0, 0, 0, 1, 0, 0, 0]);
    assert_eq!(load_into_sample(&b), file_error(IndexFileProblem::ValueOutOfRange));

    let mut b = bytes.clone();
    b[111..119].copy_from_slice(&0.5f64.to_bits().to_le_bytes());
    assert_eq!(load_into_sample(&b), file_error(IndexFileProblem::ValueOutOfRange));

    let mut b = bytes.clone();
    b[111..119].copy_from_slice(&100f64.to_bits().to_le_bytes());
    assert_eq!(
        load_into_sample(&b),
        Err(KdTreeError::InvalidBoundingBox(BoundingBoxProblem::HighBelowLow { dimension: 0 }))
    );

    let mut b = bytes.clone();
    let first: Vec<u8> = b[47..55].to_vec();
    b[55..63].copy_from_slice(&first);
    assert_eq!(load_into_sample(&b), file_error(IndexFileProblem::InconsistentIndex));
}

#[test]
fn load_index_checks_the_dataset() {
    let bytes = saved_sample();
    let small = PointCloud::new(vec![vec![0, 0], vec![1, 1], vec![2, 2]]).unwrap();
    let params = KdTreeParams { skip_initial_build: true, ..Default::default() };
    let mut tree = KdTree::new(2, &small, L2, params).unwrap();
    assert!(matches!(tree.load_index(&bytes), Err(KdTreeError::IndexOutOfBounds { len: 3, .. })));
    assert_eq!(tree.knn_search(&[0, 0], 1), Err(KdTreeError::IndexNotBuilt));

    let moved: Vec<Vec<i32>> = sample_points().iter().map(|p| vec![p[0] * 3 + 1, -p[1]]).collect();
    let other = PointCloud::new(moved).unwrap();
    let mut tree = KdTree::new(2, &other, L2, params).unwrap();
    assert_eq!(tree.load_index(&bytes), file_error(IndexFileProblem::InconsistentIndex));
}

#[test]
fn loaded_leaf_size_zero_makes_rebuilding_fail() {
    let mut bytes = saved_sample();
    bytes[31] = 0;
    let cloud = sample_cloud();
    let params = KdTreeParams { skip_initial_build: true, ..Default::default() };
    let mut tree = KdTree::new(2, &cloud, L2, params).unwrap();
    tree.load_index(&bytes).unwrap();
    assert_eq!(tree.params().leaf_max_size, 0);
    assert_eq!(tree.knn_search(&[9, 2], 1).unwrap()[0].index, 1);
    assert_eq!(tree.build_index(), Err(KdTreeError::InvalidBoundingBox(BoundingBoxProblem::SplitFailed)));
}

#[test]
fn u64_fields_are_little_endian() {
    let mut out = vec![9u8];
    write_u64(&mut out, 0x0102_0304_0506_0708);
    assert_eq!(out, vec![9, 8, 7, 6, 5, 4, 3, 2, 1]);
    let mut pos = 1usize;
    assert_eq!(read_u64(&out, &mut pos), Ok(0x0102_0304_0506_0708));
    assert_eq!(pos, 9);
    assert_eq!(read_u64(&out, &mut pos), Err(KdTreeError::InvalidIndexFile(IndexFileProblem::UnexpectedEnd)));
    assert_eq!(pos, 9);
}

#[test]
fn floor_log2_is_the_highest_set_bit() {
    assert_eq!(floor_log2(1), 0);
    assert_eq!(floor_log2(2), 1);
    assert_eq!(floor_log2(3), 1);
    assert_eq!(floor_log2(16), 4);
    assert_eq!(floor_log2(17), 4);
    assert_eq!(floor_log2(usize::MAX), usize::BITS as usize - 1);
}

#[test]
fn dynamic_tree_insertion_errors() {
    let cloud = sample_cloud();
    assert_eq!(
        DynamicKdTree::new(2, &cloud, L2, KdTreeParams::default(), 4).err(),
        Some(KdTreeError::MaximumPointCountExceeded { maximum_point_count: 4 })
    );
    assert_eq!(DynamicKdTree::new(0, &cloud, L2, KdTreeParams::default(), 4).err(), Some(KdTreeError::InvalidDimensionality));

    let empty = PointCloud::empty(2);
    let mut dynamic = DynamicKdTree::new(2, &empty, L2, KdTreeParams::default(), 0).unwrap();
    assert_eq!(dynamic.all_indices().len(), 1);
    assert_eq!(
        dynamic.add_points(&cloud, 1, 1),
        Err(KdTreeError::NonContiguousInsertion { expected: 0, got: 1 })
    );
    assert_eq!(dynamic.add_points(&cloud, 3, 10), Err(KdTreeError::IndexOutOfBounds { index: 10, len: 7 }));
    assert_eq!(dynamic.add_points(&cloud, 5, 4), Ok(()));
    // Capacity one: the second point does not fit, the first stays.
    assert_eq!(
        dynamic.add_points(&cloud, 0, 1),
        Err(KdTreeError::MaximumPointCountExceeded { maximum_point_count: 1 })
    );
    assert_eq!(dynamic.point_count(), 1);
    assert_eq!(dynamic.knn_search(&cloud, &[9, 2], 5).unwrap(), vec![ResultItem::new(0, 85)]);
}

#[test]
fn dynamic_tree_searches_match_a_static_tree() {
    let cloud = sample_cloud();
    let dynamic = DynamicKdTree::new(2, &cloud, L2, KdTreeParams::default(), 100).unwrap();
    let fixed = KdTree::new(2, &cloud, L2, KdTreeParams::default()).unwrap();
    assert_eq!(dynamic.dim(), 2);
    assert_eq!(dynamic.point_count(), 7);
    assert_eq!(dynamic.active_count(), 7);
    // 100 points need 7 static indices; 7 = 0b111 points sit in the first three.
    assert_eq!(dynamic.all_indices().len(), 7);
    let sizes: Vec<usize> = dynamic.all_indices().iter().map(|t| t.v_acc.len()).collect();
    assert_eq!(sizes, vec![1, 2, 4, 0, 0, 0, 0]);
    let mut all: Vec<usize> = dynamic.all_indices().iter().flat_map(|t| t.v_acc.clone()).collect();
    all.sort_unstable();
    assert_eq!(all, (0..7).collect::<Vec<usize>>());
    // Equal distances may come in another order: compare sorted pairs.
    let sorted = |items: Vec<ResultItem>| {
        let mut p = pairs(&items);
        p.sort();
        p
    };
    for query in [[9, 2], [0, 0], [25, -5]] {
        assert_eq!(sorted(dynamic.knn_search(&cloud, &query, 4).unwrap()), sorted(fixed.knn_search(&query, 4).unwrap()));
        assert_eq!(
            sorted(dynamic.rknn_search(&cloud, &query, 3, 150).unwrap()),
            sorted(fixed.rknn_search(&query, 3, 150).unwrap())
        );
        assert_eq!(sorted(dynamic.radius_search(&cloud, &query, 500).unwrap()), sorted(fixed.radius_search(&query, 500).unwrap()));
    }
    assert_eq!(
        dynamic.knn_search(&cloud, &[1], 1),
        Err(KdTreeError::QueryDimensionalityMismatch { expected_at_least: 2, got: 1 })
    );
}

#[test]
fn dynamic_removal_hides_points_until_reinserted() {
    let cloud = sample_cloud();
    let mut dynamic = DynamicKdTree::new(2, &cloud, L2, KdTreeParams::default(), 8).unwrap();
    dynamic.remove_point(&cloud, 1);
    dynamic.remove_point(&cloud, 1);
    dynamic.remove_point(&cloud, 40);
    assert_eq!(dynamic.point_count(), 7);
    assert_eq!(dynamic.active_count(), 6);
    let got = dynamic.knn_search_with_params(&cloud, &[9, 2], 2, SearchParameters::default()).unwrap();
    assert_eq!(pairs(&got), vec![(6, 65), (0, 85)]);
    let near = dynamic.radius_search_with_params(&cloud, &[10, 0], 101, SearchParameters { eps: 0, sorted: true }).unwrap();
    let mut near = pairs(&near);
    near.sort();
    assert_eq!(near, vec![(0, 100), (6, 100)]);

    dynamic.add_points(&cloud, 1, 1).unwrap();
    assert_eq!(dynamic.point_count(), 7);
    assert_eq!(dynamic.active_count(), 7);
    assert_eq!(dynamic.knn_search(&cloud, &[9, 2], 1).unwrap(), vec![ResultItem::new(1, 5)]);
    // An active point cannot be inserted again.
    assert_eq!(
        dynamic.add_points(&cloud, 1, 1),
        Err(KdTreeError::NonContiguousInsertion { expected: 7, got: 1 })
    );
}

#[test]
fn dynamic_tree_grows_with_its_dataset() {
    let mut cloud = PointCloud::empty(2);
    let mut dynamic = DynamicKdTree::new(2, &cloud, L2, KdTreeParams { leaf_max_size: 1, ..Default::default() }, 64).unwrap();
    for i in 0..20 {
        cloud.push(vec![i * 3, 60 - i * 2]).unwrap();
        dynamic.add_points(&cloud, i as usize, i as usize).unwrap();
    }
    assert_eq!(dynamic.point_count(), 20);
    let sizes: Vec<usize> = dynamic.all_indices().iter().map(|t| t.v_acc.len()).collect();
    assert_eq!(sizes, vec![0, 0, 4, 0, 16, 0, 0]);
    let points: Vec<Vec<i32>> = cloud.points().to_vec();
    let got = dynamic.knn_search(&cloud, &[30, 40], 3).unwrap();
    let want: Vec<(usize, i128)> = brute(&points, &[30, 40]).into_iter().take(3).collect();
    assert_eq!(pairs(&got), want);
}

#[test]
fn result_sets_start_empty() {
    let knn = KnnResultSet::new(3);
    assert!(knn.items().is_empty());
    assert!(KnnResultSet::with_first_match(2, true).into_vec().is_empty());
    let rknn = RknnResultSet::new(3, 50);
    assert!(rknn.items().is_empty());
    assert!(RknnResultSet::with_first_match(3, 50, true).into_vec().is_empty());
    let radius = RadiusResultSet::new(10);
    assert!(radius.items().is_empty());
    assert_eq!(radius.worst_item(), None);
    assert!(RadiusResultSet::with_capacity(10, 4).into_vec().is_empty());
    assert_eq!(SearchParameters::default(), SearchParameters { eps: 0, sorted: true });
    assert_eq!(KdTreeParams::default().leaf_max_size, 10);
    assert_eq!(Interval::zero(), Interval::new(0, 0));
}

#[test]
fn readme_example_finds_the_nearest_point() {
    let cloud = PointCloud::new(vec![vec![0, 0], vec![10, 0], vec![0, 20]]).unwrap();
    let tree = KdTree::new(2, &cloud, L2, KdTreeParams::default()).unwrap();
    let nearest = tree.knn_search(&[9, 1], 1).unwrap();
    assert_eq!(nearest[0].index, 1);
}

#[test]
fn first_match_keeps_the_smaller_index_on_ties() {
    for points in [vec![vec![-10, 0], vec![10, 0]], vec![vec![10, 0], vec![-10, 0]]] {
        let cloud = PointCloud::new(points).unwrap();
        for leaf_max_size in [1, 10] {
            let params = KdTreeParams { leaf_max_size, first_match: true, ..Default::default() };
            let tree = KdTree::new(2, &cloud, L2, params).unwrap();
            assert_eq!(pairs(&tree.knn_search(&[0, 0], 1).unwrap()), vec![(0, 100)]);
            assert_eq!(pairs(&tree.knn_search(&[0, 0], 2).unwrap()), vec![(0, 100), (1, 100)]);
        }
    }
    let cloud = PointCloud::new(vec![vec![5, 5], vec![3, 0], vec![0, 3], vec![-3, 0], vec![0, -3]]).unwrap();
    let params = KdTreeParams { leaf_max_size: 1, first_match: true, ..Default::default() };
    let tree = KdTree::new(2, &cloud, L2, params).unwrap();
    assert_eq!(pairs(&tree.knn_search(&[0, 0], 2).unwrap()), vec![(1, 9), (2, 9)]);
}

#[test]
fn search_with_eps_zero_matches_plain_search() {
    let points = sample_points();
    let cloud = sample_cloud();
    for first_match in [false, true] {
        let params = KdTreeParams { leaf_max_size: 2, first_match, ..Default::default() };
        let tree = KdTree::new(2, &cloud, L2, params).unwrap();
        for query in [[0, 0], [7, 3], [-20, 15], [10, 10]] {
            for k in 1..=7 {
                let plain = tree.knn_search(&query, k).unwrap();
                let with_params =
                    tree.knn_search_with_params(&query, k, SearchParameters { eps: 0, sorted: true }).unwrap();
                assert_eq!(pairs(&plain), pairs(&with_params));
                let expected: Vec<i128> = brute(&points, &query).iter().take(k).map(|p| p.1).collect();
                let got: Vec<i128> = plain.iter().map(|item| item.distance).collect();
                assert_eq!(got, expected);
            }
        }
    }
}

#[test]
fn construction_errors_come_before_reading_points() {
    let cloud = PointCloud::new(vec![vec![1], vec![2]]).unwrap();
    assert_eq!(KdTree::new(0, &cloud, L2, KdTreeParams::default()).err(), Some(KdTreeError::InvalidDimensionality));
    let params = KdTreeParams { leaf_max_size: 0, ..Default::default() };
    assert_eq!(KdTree::new(3, &cloud, L2, params).err(), Some(KdTreeError::InvalidLeafMaxSize));
    let params = KdTreeParams { skip_initial_build: true, ..Default::default() };
    let tree = KdTree::new(3, &cloud, L2, params).unwrap();
    assert_eq!(tree.size(), 2);
    assert_eq!(tree.size_at_index_build(), 0);
}

#[test]
fn load_index_reports_an_entry_outside_the_dataset() {
    let mut b = saved_sample();
    b[47 + 8 * 3..47 + 8 * 4].copy_from_slice(&99u64.to_le_bytes());
    assert_eq!(load_into_sample(&b), Err(KdTreeError::IndexOutOfBounds { index: 99, len: 7 }));
    let mut b = saved_sample();
    b[103..111].copy_from_slice(&5u64.to_le_bytes());
    assert_eq!(
        load_into_sample(&b),
        file_error(IndexFileProblem::BoundingBoxDimensionalityMismatch { saved: 5, expected: 2 })
    );
}

#[test]
fn query_components_past_the_dimension_are_ignored() {
    let cloud = sample_cloud();
    let tree = KdTree::new(2, &cloud, L2, KdTreeParams { leaf_max_size: 2, ..Default::default() }).unwrap();
    for extra in [[0, 0, 99], [7, 3, -5]] {
        let short = [extra[0], extra[1]];
        assert_eq!(pairs(&tree.knn_search(&extra, 4).unwrap()), pairs(&tree.knn_search(&short, 4).unwrap()));
        assert_eq!(pairs(&tree.radius_search(&extra, 250).unwrap()), pairs(&tree.radius_search(&short, 250).unwrap()));
    }
}

#[test]
fn sorted_radius_results_reorder_the_unsorted_ones() {
    let cloud = sample_cloud();
    let tree = KdTree::new(2, &cloud, L2, KdTreeParams { leaf_max_size: 1, ..Default::default() }).unwrap();
    for query in [[0, 0], [12, 7], [-10, 20]] {
        let sorted = tree.radius_search_with_params(&query, 900, SearchParameters { eps: 0, sorted: true }).unwrap();
        let mut unsorted =
            pairs(&tree.radius_search_with_params(&query, 900, SearchParameters { eps: 0, sorted: false }).unwrap());
        unsorted.sort_by(|a, b| a.1.cmp(&b.1).then(a.0.cmp(&b.0)));
        let mut sorted_pairs = pairs(&sorted);
        assert!(sorted_pairs.windows(2).all(|w| w[0].1 <= w[1].1));
        sorted_pairs.sort_by(|a, b| a.1.cmp(&b.1).then(a.0.cmp(&b.0)));
        assert_eq!(sorted_pairs, unsorted);
    }
}

#[test]
fn load_index_reports_every_truncation_as_unexpected_end() {
    for leaf_max_size in [10, 2] {
        let cloud = sample_cloud();
        let tree = KdTree::new(2, &cloud, L2, KdTreeParams { leaf_max_size, ..Default::default() }).unwrap();
        let mut bytes = Vec::new();
        tree.save_index(&mut bytes);
        for k in 0..bytes.len() {
            assert_eq!(load_into_sample(&bytes[..k]), file_error(IndexFileProblem::UnexpectedEnd), "cut at {k}");
        }
        assert_eq!(load_into_sample(&bytes), Ok(()));
    }
}

#[test]
fn load_index_refuses_bad_nodes_below_the_root() {
    let bytes = saved_sample();
    // The root is one leaf over the 7 entries; its last field is the end of its range.
    let mut b = bytes.clone();
    let end = b.len();
    b[end - 8..].copy_from_slice(&8u64.to_le_bytes());
    assert_eq!(load_into_sample(&b), file_error(IndexFileProblem::InconsistentIndex));

    let cloud = sample_cloud();
    let tree = KdTree::new(2, &cloud, L2, KdTreeParams { leaf_max_size: 2, ..Default::default() }).unwrap();
    let mut deep = Vec::new();
    tree.save_index(&mut deep);
    // Presence byte at 143, root tag at 144, its three fields, then the first child's tag.
    assert_eq!(deep[144], 1);
    deep[169] = 7;
    assert_eq!(load_into_sample(&deep), file_error(IndexFileProblem::InvalidNodeTag { tag: 7 }));
}

#[test]
fn dynamic_sub_index_sizes_follow_the_bits_of_the_point_count() {
    let cloud = sample_cloud();
    let mut dynamic = DynamicKdTree::new(2, &cloud, L2, KdTreeParams::default(), 16).unwrap();
    assert_eq!(dynamic.point_count(), 7);
    let sizes: Vec<usize> = dynamic.all_indices().iter().map(|t| t.size).collect();
    assert_eq!(sizes, vec![1, 2, 4, 0, 0]);
    let got = dynamic.knn_search(&cloud, &[9, 2], 3).unwrap();
    assert_eq!(got.iter().map(|item| item.index).collect::<Vec<_>>(), vec![1, 6, 0]);
    dynamic.remove_point(&cloud, 3);
    let sizes: Vec<usize> = dynamic.all_indices().iter().map(|t| t.size).collect();
    assert_eq!(sizes, vec![1, 2, 4, 0, 0]);
}

#[test]
fn build_that_cannot_split_keeps_the_computed_box() {
    let cloud = sample_cloud();
    let mut tree = KdTree::new(2, &cloud, L2, KdTreeParams::default()).unwrap();
    let before = tree.root_bbox().to_vec();
    // Construction refuses a leaf size of 0; a loaded index can carry one.
    let mut bytes = Vec::new();
    tree.save_index(&mut bytes);
    bytes[31..39].copy_from_slice(&0u64.to_le_bytes());
    tree.load_index(&bytes).unwrap();
    assert_eq!(tree.params().leaf_max_size, 0);
    assert_eq!(
        tree.build_index(),
        Err(KdTreeError::InvalidBoundingBox(BoundingBoxProblem::SplitFailed))
    );
    assert_eq!(tree.root_bbox(), &before[..]);
}
