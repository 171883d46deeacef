use image_segmentation::assign::{
    assign_to_centroids, check_assign_inputs, is_rectangular, nearest_centroid, squared_distance,
};
use image_segmentation::kmeans::{is_converged, k_means, k_means_from};
use image_segmentation::model::{ClusterError, SCALE};
use image_segmentation::update::{cluster_mean, compute_centroids_from_cluster};

fn four_points() -> Vec<Vec<u8>> {
    vec![vec![0, 0], vec![0, 1], vec![10, 10], vec![10, 11]]
}

fn sorted_sets(clusters: &Vec<Vec<usize>>) -> Vec<Vec<usize>> {
    let mut sets = clusters.clone();
    sets.sort();
    sets
}

#[test]
fn squared_distance_is_scaled_square_sum() {
    assert_eq!(squared_distance(&vec![1, 2], &vec![0, 1500]), 1_000_000 + 250_000);
    assert_eq!(squared_distance(&vec![3, 4], &vec![3000, 4000]), 0);
    assert_eq!(squared_distance(&vec![], &vec![]), 0);
}

#[test]
fn squared_distance_largest_values() {
    assert_eq!(squared_distance(&vec![255, 0], &vec![0, 255_000]), 2 * 255_000u64 * 255_000);
}

#[test]
fn nearest_centroid_prefers_lowest_index_on_ties() {
    let centroids = vec![vec![0, 2000], vec![2000, 0], vec![1000, 1000]];
    assert_eq!(nearest_centroid(&vec![1, 1], &centroids), (2, 0));
    assert_eq!(nearest_centroid(&vec![2, 2], &vec![vec![2000, 3000], vec![3000, 2000]]), (0, 1_000_000));
}

#[test]
fn assignment_covers_every_sample_once() {
    let features = four_points();
    let centroids = vec![vec![0, 0], vec![10_000, 10_000]];
    let (clusters, err) = assign_to_centroids(&centroids, &features).unwrap();
    assert_eq!(clusters, vec![vec![0, 1], vec![2, 3]]);
    assert_eq!(err, 1_000_000 + 1_000_000);
    let mut all: Vec<usize> = clusters.concat();
    all.sort();
    assert_eq!(all, vec![0, 1, 2, 3]);
}

#[test]
fn assignment_keeps_sample_order_inside_clusters() {
    let features = vec![vec![9], vec![1], vec![8], vec![2], vec![0]];
    let centroids = vec![vec![0], vec![9000]];
    let (clusters, err) = assign_to_centroids(&centroids, &features).unwrap();
    assert_eq!(clusters, vec![vec![1, 3, 4], vec![0, 2]]);
    assert_eq!(err, 1_000_000 + 1_000_000 + 4_000_000);
}

#[test]
fn assignment_rejects_empty_input() {
    let features: Vec<Vec<u8>> = vec![];
    assert_eq!(assign_to_centroids(&vec![vec![0]], &features), Err(ClusterError::EmptyInput));
}

#[test]
fn assignment_rejects_bad_cluster_counts() {
    let features = vec![vec![1], vec![2]];
    let none: Vec<Vec<u64>> = vec![];
    assert_eq!(assign_to_centroids(&none, &features), Err(ClusterError::InvalidClusterCount));
    let three = vec![vec![0], vec![1], vec![2]];
    assert_eq!(assign_to_centroids(&three, &features), Err(ClusterError::InvalidClusterCount));
}

#[test]
fn assignment_rejects_dimension_mismatch() {
    let features = vec![vec![1, 2], vec![3, 4]];
    assert_eq!(
        assign_to_centroids(&vec![vec![0, 0], vec![0]], &features),
        Err(ClusterError::DimensionMismatch)
    );
    let ragged = vec![vec![1, 2], vec![3]];
    assert_eq!(assign_to_centroids(&vec![vec![0, 0]], &ragged), Err(ClusterError::DimensionMismatch));
    assert!(!is_rectangular(&ragged));
    assert_eq!(check_assign_inputs(&vec![vec![0, 0]], &features), None);
}

#[test]
fn update_takes_rounded_means() {
    let features = vec![vec![0, 1], vec![1, 1], vec![0, 2], vec![2, 2]];
    let clusters = vec![vec![0, 1], vec![0, 2, 3], vec![1, 1, 2]];
    let centroids = compute_centroids_from_cluster(&clusters, &features);
    assert_eq!(centroids, vec![vec![500, 1000], vec![667, 1667], vec![667, 1333]]);
    assert_eq!(cluster_mean(&features, &vec![3], 1), 2 * SCALE);
}

#[test]
fn update_zeroes_an_empty_cluster() {
    let features = vec![vec![5, 5], vec![10, 10]];
    let clusters = vec![vec![0, 1], vec![]];
    let centroids = compute_centroids_from_cluster(&clusters, &features);
    assert_eq!(centroids, vec![vec![7500, 7500], vec![0, 0]]);
}

#[test]
fn convergence_threshold_is_one_percent() {
    assert!(is_converged(1000, 995));
    assert!(is_converged(995, 1000));
    assert!(!is_converged(1010, 1000));
    assert!(!is_converged(100, 99));
    assert!(!is_converged(0, 0));
    assert!(!is_converged(u128::MAX, 1));
}

#[test]
fn four_points_split_into_two_pairs() {
    let features = four_points();
    let (centroids, clusters) = k_means_from(vec![vec![0, 0], vec![1000, 1000]], 10, &features).unwrap();
    assert_eq!(centroids, vec![vec![0, 500], vec![10_000, 10_500]]);
    assert_eq!(clusters, vec![vec![0, 1], vec![2, 3]]);
}

#[test]
fn four_points_split_from_a_seed() {
    let features = four_points();
    let (centroids, clusters) = k_means(2, 10, &features, 7).unwrap();
    assert_eq!(sorted_sets(&clusters), vec![vec![0, 1], vec![2, 3]]);
    let mut cs = centroids.clone();
    cs.sort();
    assert_eq!(cs, vec![vec![0, 500], vec![10_000, 10_500]]);
}

#[test]
fn same_seed_gives_same_result() {
    let features = vec![vec![200, 10, 10], vec![190, 20, 5], vec![10, 10, 220], vec![0, 30, 250], vec![90, 90, 90]];
    let a = k_means(3, 20, &features, 12345).unwrap();
    let b = k_means(3, 20, &features, 12345).unwrap();
    assert_eq!(a, b);
}

#[test]
fn initial_centroids_lie_below_one() {
    let features = four_points();
    let (centroids, clusters) = k_means(3, 0, &features, 99).unwrap();
    assert_eq!(centroids.len(), 3);
    assert!(centroids.iter().all(|c| c.len() == 2 && c.iter().all(|&v| v < SCALE)));
    assert_eq!(clusters, vec![Vec::<usize>::new(), vec![], vec![]]);
}

#[test]
fn zero_iterations_return_the_initial_centroids() {
    let features = four_points();
    let init = vec![vec![1, 2], vec![3, 4]];
    let (centroids, clusters) = k_means_from(init.clone(), 0, &features).unwrap();
    assert_eq!(centroids, init);
    assert_eq!(clusters, vec![Vec::<usize>::new(), vec![]]);
}

#[test]
fn single_cluster_centroid_is_the_mean() {
    let features = four_points();
    let (centroids, clusters) = k_means_from(vec![vec![999, 3]], 5, &features).unwrap();
    assert_eq!(centroids, vec![vec![5000, 5500]]);
    assert_eq!(clusters, vec![vec![0, 1, 2, 3]]);
    let (centroids, _) = k_means(1, 1, &features, 3).unwrap();
    assert_eq!(centroids, vec![vec![5000, 5500]]);
}

#[test]
fn distinct_points_are_a_fixed_point() {
    let features = vec![vec![1, 2], vec![7, 8], vec![1, 2], vec![7, 8], vec![7, 8]];
    let init = vec![vec![1000, 2000], vec![7000, 8000]];
    let (_, err) = assign_to_centroids(&init, &features).unwrap();
    assert_eq!(err, 0);
    let (centroids, clusters) = k_means_from(init.clone(), 10, &features).unwrap();
    assert_eq!(centroids, init);
    assert_eq!(clusters, vec![vec![0, 2], vec![1, 3, 4]]);
}

#[test]
fn error_does_not_grow_between_updates() {
    let features = vec![vec![0, 0], vec![3, 1], vec![9, 9], vec![8, 10], vec![4, 4], vec![1, 7]];
    let mut centroids = vec![vec![100, 900], vec![800, 200], vec![500, 500]];
    let mut last = u128::MAX;
    for _ in 0..6 {
        let (clusters, err) = assign_to_centroids(&centroids, &features).unwrap();
        assert!(err <= last);
        last = err;
        centroids = compute_centroids_from_cluster(&clusters, &features);
    }
}

#[test]
fn empty_cluster_is_orphaned() {
    let features = vec![vec![5, 5], vec![10, 10]];
    let init = vec![vec![900, 900], vec![100, 100]];
    let (clusters, _) = assign_to_centroids(&init, &features).unwrap();
    assert_eq!(clusters, vec![vec![0, 1], vec![]]);
    let (centroids, clusters) = k_means_from(init, 10, &features).unwrap();
    assert_eq!(centroids, vec![vec![7500, 7500], vec![0, 0]]);
    assert_eq!(clusters, vec![vec![0, 1], vec![]]);
}

#[test]
fn k_means_rejects_bad_requests() {
    let empty: Vec<Vec<u8>> = vec![];
    assert_eq!(k_means(1, 10, &empty, 1), Err(ClusterError::EmptyInput));
    let features = vec![vec![1, 2], vec![3, 4]];
    assert_eq!(k_means(0, 10, &features, 1), Err(ClusterError::InvalidClusterCount));
    assert_eq!(k_means(3, 10, &features, 1), Err(ClusterError::InvalidClusterCount));
    let ragged = vec![vec![1, 2], vec![3]];
    assert_eq!(k_means(1, 10, &ragged, 1), Err(ClusterError::DimensionMismatch));
    assert_eq!(
        k_means_from(vec![vec![0, 0, 0]], 10, &features),
        Err(ClusterError::DimensionMismatch)
    );
}
