use lib::{
    DistanceMetric, DynamicKdTree, Interval, KdTree, KdTreeParams, L2Simple, MatrixDataset, MatrixLayout, PointCloud,
    SearchParameters, L1, L2, SO2,
};

// Coordinates are integers counting tenths of a unit, so squared L2
// distances count hundredths.
fn sample_cloud() -> PointCloud {
    PointCloud::new(vec![
        vec![0, 0],
        vec![10, 0],
        vec![0, 20],
        vec![20, 20],
        vec![-10, 10],
        vec![30, -10],
        vec![10, 10],
    ])
    .unwrap()
}

fn brute_l2(points: &[Vec<i32>], query: &[i32]) -> Vec<(usize, i128)> {
    let mut out: Vec<(usize, i128)> = points
        .iter()
        .enumerate()
        .map(|(idx, point)| {
            let dist: i128 = point
                .iter()
                .zip(query.iter())
                .map(|(a, b)| {
                    let d = *a as i128 - *b as i128;
                    d * d
                })
                .sum();
            (idx, dist)
        })
        .collect();
    out.sort_by(|a, b| a.1.cmp(&b.1));
    out
}

#[test]
fn distance_metrics_match_nanoflann_semantics() {
    let cloud = PointCloud::new(vec![vec![2, -1, 4]]).unwrap();
    let query = [1, 2, 3];

    let l1 = L1.eval_metric(&cloud, &query, 0, 3, None);
    let l2 = L2.eval_metric(&cloud, &query, 0, 3, None);
    let l2_simple = L2Simple.eval_metric(&cloud, &query, 0, 3, None);

    assert_eq!(l1, 5);
    assert_eq!(l2, 11);
    assert_eq!(l2_simple, 11);
}

#[test]
fn so2_wraps_angular_difference_like_cpp() {
    // Angles are binary: `x` stands for `x * pi / 2^31`, so three radians is
    // 2050695827 and a full turn is 2^32.
    let three_radians: i32 = 2050695827;
    let cloud = PointCloud::new(vec![vec![-three_radians]]).unwrap();
    let query = [three_radians];
    let distance = SO2.eval_metric(&cloud, &query, 0, 1, None);
    assert_eq!(distance, -(three_radians as i128) - three_radians as i128 + (1i128 << 32));
}

#[test]
fn knn_search_matches_brute_force_l2() {
    let cloud = sample_cloud();
    let tree = KdTree::new(2, &cloud, L2, KdTreeParams::default()).unwrap();
    let query = [9, 2];

    let got = tree.knn_search(&query, 3).unwrap();
    let expected = brute_l2(cloud.points(), &query);

    assert_eq!(got.len(), 3);
    for (result, expected) in got.iter().zip(expected.iter().take(3)) {
        assert_eq!(result.index, expected.0);
        assert_eq!(result.distance, expected.1);
    }
}

#[test]
fn radius_search_uses_strict_radius_and_sorted_results() {
    let cloud = sample_cloud();
    let tree = KdTree::new(2, &cloud, L2, KdTreeParams::default()).unwrap();

    let strict = tree.radius_search(&[0, 0], 200).unwrap();
    let strict_indices: Vec<_> = strict.iter().map(|item| item.index).collect();
    assert_eq!(strict_indices, vec![0, 1]);

    let wider = tree.radius_search_with_params(&[0, 0], 201, SearchParameters { eps: 0, sorted: true }).unwrap();
    let mut wider_indices: Vec<_> = wider.iter().map(|item| item.index).collect();
    wider_indices.sort_unstable();
    assert_eq!(wider_indices, vec![0, 1, 4, 6]);
    assert!(wider.windows(2).all(|w| w[0].distance <= w[1].distance));
}

#[test]
fn rknn_search_applies_radius_and_capacity() {
    let cloud = sample_cloud();
    let tree = KdTree::new(2, &cloud, L2, KdTreeParams::default()).unwrap();

    let got = tree.rknn_search(&[9, 2], 5, 100).unwrap();
    let got_indices: Vec<_> = got.iter().map(|item| item.index).collect();
    assert_eq!(got_indices, vec![1, 6, 0]);
}

#[test]
fn find_within_box_is_inclusive() {
    let cloud = sample_cloud();
    let tree = KdTree::new(2, &cloud, L2, KdTreeParams::default()).unwrap();
    let mut got = tree.find_within_box(&[Interval::new(0, 10), Interval::new(0, 10)]).unwrap();
    got.sort_unstable();
    assert_eq!(got, vec![0, 1, 6]);
}

#[test]
fn skip_initial_build_reports_unbuilt_until_build_index() {
    let cloud = sample_cloud();
    let params = KdTreeParams { skip_initial_build: true, ..Default::default() };
    let mut tree = KdTree::new(2, &cloud, L2, params).unwrap();

    assert!(tree.knn_search(&[0, 0], 1).is_err());
    tree.build_index().unwrap();
    let got = tree.knn_search(&[0, 0], 1).unwrap();
    assert_eq!(got[0].index, 0);
}

#[test]
fn save_and_load_round_trip_preserves_queries() {
    let cloud = sample_cloud();
    let tree = KdTree::new(2, &cloud, L2, KdTreeParams::default()).unwrap();
    let expected = tree.knn_search(&[9, 2], 4).unwrap();

    let mut bytes = Vec::new();
    tree.save_index(&mut bytes);

    let params = KdTreeParams { skip_initial_build: true, ..Default::default() };
    let mut loaded = KdTree::new(2, &cloud, L2, params).unwrap();
    let slice = bytes.as_slice();
    loaded.load_index(slice).unwrap();

    let got = loaded.knn_search(&[9, 2], 4).unwrap();
    assert_eq!(got.len(), expected.len());
    for (got, expected) in got.iter().zip(expected.iter()) {
        assert_eq!(got.index, expected.index);
        assert_eq!(got.distance, expected.distance);
    }
}

#[test]
fn matrix_dataset_supports_row_and_column_points() {
    // Matrix: [[0, 0], [10, 0], [0, 20]] stored row-major.
    let row_points = MatrixDataset::new(vec![0, 0, 10, 0, 0, 20], 3, 2, MatrixLayout::RowMajorPoints).unwrap();
    let row_tree = KdTree::new(row_points.point_dim(), &row_points, L2, KdTreeParams::default()).unwrap();
    assert_eq!(row_tree.knn_search(&[8, 1], 1).unwrap()[0].index, 1);

    // Same logical points as columns in matrix [[0, 10, 0], [0, 0, 20]].
    let col_points = MatrixDataset::new(vec![0, 10, 0, 0, 0, 20], 2, 3, MatrixLayout::ColumnMajorPoints).unwrap();
    let col_tree = KdTree::new(col_points.point_dim(), &col_points, L2, KdTreeParams::default()).unwrap();
    assert_eq!(col_tree.knn_search(&[8, 1], 1).unwrap()[0].index, 1);
}

#[test]
fn dynamic_tree_handles_insert_remove_and_reactivation_without_duplicates() {
    let mut cloud = PointCloud::empty(2);
    let mut dynamic = DynamicKdTree::new(2, &cloud, L2, KdTreeParams::default(), 16).unwrap();

    cloud.push(vec![0, 0]).unwrap();
    dynamic.add_points(&cloud, 0, 0).unwrap();
    cloud.push(vec![100, 0]).unwrap();
    dynamic.add_points(&cloud, 1, 1).unwrap();
    cloud.push(vec![10, 0]).unwrap();
    dynamic.add_points(&cloud, 2, 2).unwrap();

    assert_eq!(dynamic.knn_search(&cloud, &[9, 0], 1).unwrap()[0].index, 2);

    dynamic.remove_point(&cloud, 2);
    assert_eq!(dynamic.knn_search(&cloud, &[9, 0], 1).unwrap()[0].index, 0);

    dynamic.add_points(&cloud, 2, 2).unwrap();
    assert_eq!(dynamic.knn_search(&cloud, &[9, 0], 1).unwrap()[0].index, 2);

    let near_reactivated = dynamic.radius_search(&cloud, &[10, 0], 1).unwrap();
    assert_eq!(near_reactivated.len(), 1);
    assert_eq!(near_reactivated[0].index, 2);
}
