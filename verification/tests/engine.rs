use graph_bisection::engine::reorder;
use graph_bisection::planner::compute_partitions_size;

/// Every value in [0, n) appears exactly once.
fn assert_is_permutation(perm: &[usize]) {
    let n = perm.len();
    let mut seen = vec![false; n];
    for &v in perm {
        assert!(v < n, "value {} out of range {}", v, n);
        assert!(!seen[v], "value {} assigned twice", v);
        seen[v] = true;
    }
}

/// A deterministic sparse graph: node i points at a few larger node ids.
fn sample_graph(n: usize) -> Vec<Vec<usize>> {
    let mut adjs = Vec::with_capacity(n);
    for i in 0..n {
        let mut succs: Vec<usize> = Vec::new();
        for step in 1..=3usize {
            let t = (i * 7 + step * step) % n;
            succs.push(t);
        }
        succs.sort_unstable();
        succs.dedup();
        adjs.push(succs);
    }
    adjs
}

#[test]
fn four_node_scenario_places_empty_nodes_last() {
    // node 0 -> {1, 2}, node 1 -> {2}, nodes 2 and 3 have no edges:
    // the planner yields two leaves of size 2
    let adjs: Vec<Vec<usize>> = vec![vec![1, 2], vec![2], vec![], vec![]];
    assert_eq!(compute_partitions_size(4, 2, 1), vec![2, 4]);
    let perm = reorder(&adjs, 20, 2, 1, false);
    assert_is_permutation(&perm);
    // nodes 2 and 3 are excluded from bisection and placed after the two
    // processed documents
    assert!(perm[2] >= 2);
    assert!(perm[3] >= 2);
    assert!(perm[0] < 2);
    assert!(perm[1] < 2);
    assert_eq!(perm, vec![0, 1, 2, 3]);
}

#[test]
fn permutation_is_bijection_on_sample_graphs() {
    for &n in &[1usize, 2, 3, 5, 16, 33, 64, 100] {
        let adjs = sample_graph(n);
        let perm = reorder(&adjs, 20, 4, 100, false);
        assert_eq!(perm.len(), n);
        assert_is_permutation(&perm);
    }
}

#[test]
fn empty_graph_reorders_to_empty_permutation() {
    let adjs: Vec<Vec<usize>> = Vec::new();
    let perm = reorder(&adjs, 20, 16, 100, false);
    assert!(perm.is_empty());
}

#[test]
fn all_empty_adjacencies_keep_a_full_permutation() {
    let adjs: Vec<Vec<usize>> = vec![vec![], vec![], vec![]];
    let perm = reorder(&adjs, 20, 16, 100, true);
    assert_is_permutation(&perm);
}

#[test]
fn rerunning_the_bisector_is_deterministic() {
    let adjs = sample_graph(60);
    let first = reorder(&adjs, 20, 4, 100, true);
    let second = reorder(&adjs, 20, 4, 100, true);
    assert_eq!(first, second);
    assert_is_permutation(&first);
}

#[test]
fn single_leaf_with_sorted_leaves_is_identity() {
    // everything fits one leaf, so sorting by original id gives back the
    // identity on the nodes with edges
    let adjs = sample_graph(10);
    let perm = reorder(&adjs, 20, 16, 100, true);
    for (i, &v) in perm.iter().enumerate() {
        assert_eq!(v, i);
    }
}

#[test]
fn sorted_leaves_ascend_within_every_cluster() {
    // every node has edges, so bisection covers the whole graph and the
    // planner's boundaries are exactly the leaf boundaries
    let n = 32usize;
    let adjs = sample_graph(n);
    for a in &adjs {
        assert!(!a.is_empty());
    }
    let perm = reorder(&adjs, 20, 4, 100, true);
    assert_is_permutation(&perm);
    // invert: who sits at each new position
    let mut inv = vec![0usize; n];
    for (orig, &new_id) in perm.iter().enumerate() {
        inv[new_id] = orig;
    }
    let boundaries = compute_partitions_size(n, 4, 100);
    let mut leaf_start = 0usize;
    for &leaf_end in &boundaries {
        for w in inv[leaf_start..leaf_end].windows(2) {
            assert!(w[0] < w[1], "leaf [{}, {}) not sorted", leaf_start, leaf_end);
        }
        leaf_start = leaf_end;
    }
}

#[test]
fn cluster_boundaries_cover_the_permutation() {
    let n = 100usize;
    let adjs = sample_graph(n);
    let perm = reorder(&adjs, 20, 16, 100, false);
    assert_is_permutation(&perm);
    let boundaries = compute_partitions_size(n, 16, 100);
    assert_eq!(*boundaries.last().unwrap(), n);
}
