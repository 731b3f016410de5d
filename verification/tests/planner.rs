use graph_bisection::planner::compute_partitions_size;

#[test]
fn plan_of_zero_nodes_is_empty() {
    let out = compute_partitions_size(0, 16, 100);
    assert!(out.is_empty());
}

#[test]
fn plan_17_min5_halves_down_to_leaves() {
    // 17 -> (8, 9) -> (4, 4)(4, 5): leaf sizes [4, 4, 4, 5]
    let out = compute_partitions_size(17, 5, 100);
    assert_eq!(out, vec![4, 8, 12, 17]);
    assert_eq!(*out.last().unwrap(), 17);
}

#[test]
fn plan_4_min2_depth1_gives_two_leaves() {
    // one split happens before the depth bound binds: two leaves of size 2
    let out = compute_partitions_size(4, 2, 1);
    assert_eq!(out, vec![2, 4]);
}

#[test]
fn plan_16_min1_depth1_splits_exactly_once() {
    // at max_depth = 1 the root splits and its halves are leaves
    let out = compute_partitions_size(16, 1, 1);
    assert_eq!(out, vec![8, 16]);
}

#[test]
fn plan_single_node() {
    let out = compute_partitions_size(1, 16, 100);
    assert_eq!(out, vec![1]);
}

#[test]
fn boundaries_strictly_increase_and_end_at_n() {
    for &(n, min_size, max_depth) in
        &[(1usize, 1usize, 1usize), (2, 1, 100), (16, 16, 100), (100, 16, 100), (37, 3, 4), (1000, 16, 2)]
    {
        let out = compute_partitions_size(n, min_size, max_depth);
        assert!(!out.is_empty());
        for w in out.windows(2) {
            assert!(w[0] < w[1]);
        }
        assert_eq!(*out.last().unwrap(), n);
    }
}

#[test]
fn plan_depth_cap_limits_leaf_count() {
    // with max_depth = 2, two levels of halving happen at most
    let out = compute_partitions_size(1000, 16, 2);
    assert_eq!(out, vec![250, 500, 750, 1000]);
}

#[test]
fn plan_min_size_stops_splitting() {
    // 16 <= min_partition_size, so the root is a leaf
    let out = compute_partitions_size(16, 16, 100);
    assert_eq!(out, vec![16]);
}
