use graph_bisection::cost::{bits_exec, cost_term_exec, split_cost_exec};
use graph_bisection::doc::Document;
use graph_bisection::optimizer::{swap_optimizer, swap_pass};

fn docs_from(adjs: &[Vec<usize>]) -> Vec<Document> {
    adjs.iter().enumerate().map(|(i, a)| Document::new(i, a)).collect()
}

#[test]
fn bits_of_small_values() {
    assert_eq!(bits_exec(0), 0);
    assert_eq!(bits_exec(1), 1);
    assert_eq!(bits_exec(2), 2);
    assert_eq!(bits_exec(3), 2);
    assert_eq!(bits_exec(4), 3);
    assert_eq!(bits_exec(255), 8);
    assert_eq!(bits_exec(256), 9);
}

#[test]
fn cost_term_formula() {
    // no occurrence, no cost
    assert_eq!(cost_term_exec(0, 100), 0);
    // f * (bits(sz) + 1 - bits(f)): 2 occurrences among 8 documents
    assert_eq!(cost_term_exec(2, 8), 2 * (4 + 1 - 2));
    // all documents name the neighbor: one bit each plus the marker
    assert_eq!(cost_term_exec(8, 8), 8);
    assert_eq!(cost_term_exec(1, 1), 1);
}

#[test]
fn pass_cost_never_increases() {
    // two clusters {0, 1} and {2, 3}, interleaved across the split seed
    let adjs = vec![
        vec![4, 5],
        vec![6, 7],
        vec![4, 5],
        vec![6, 7],
        vec![],
        vec![],
        vec![],
        vec![],
    ];
    let docs = docs_from(&adjs);
    let n = adjs.len();
    let mut ord: Vec<usize> = (0..n).collect();
    let mut previous = split_cost_exec(&docs, &ord, 0, 2, 4, n);
    for _ in 0..20 {
        let improved = swap_pass(&docs, &mut ord, 0, 2, 4, n);
        let current = split_cost_exec(&docs, &ord, 0, 2, 4, n);
        assert!(current <= previous);
        if improved {
            assert!(current < previous);
        } else {
            break;
        }
        previous = current;
    }
}

#[test]
fn pass_separates_interleaved_clusters() {
    // documents 0 and 2 share neighbors, as do 1 and 3; the seed puts one
    // of each on both sides, and one exchange fixes that
    let adjs = vec![
        vec![4, 5],
        vec![6, 7],
        vec![4, 5],
        vec![6, 7],
        vec![],
        vec![],
        vec![],
        vec![],
    ];
    let docs = docs_from(&adjs);
    let n = adjs.len();
    let mut ord: Vec<usize> = (0..n).collect();
    let before = split_cost_exec(&docs, &ord, 0, 2, 4, n);
    let improved = swap_pass(&docs, &mut ord, 0, 2, 4, n);
    assert!(improved);
    let after = split_cost_exec(&docs, &ord, 0, 2, 4, n);
    assert!(after < before);
    // both sides now hold one cluster each
    let mut left = vec![ord[0], ord[1]];
    let mut right = vec![ord[2], ord[3]];
    left.sort_unstable();
    right.sort_unstable();
    assert!(left == vec![0, 2] || left == vec![1, 3]);
    assert!(right == vec![0, 2] || right == vec![1, 3]);
    assert_ne!(left, right);
}

#[test]
fn optimizer_is_noop_on_empty_side() {
    let adjs = vec![vec![1], vec![0]];
    let docs = docs_from(&adjs);
    let mut ord: Vec<usize> = vec![0, 1];
    let improved = swap_pass(&docs, &mut ord, 0, 0, 2, 2);
    assert!(!improved);
    assert_eq!(ord, vec![0, 1]);
    let improved = swap_pass(&docs, &mut ord, 0, 2, 2, 2);
    assert!(!improved);
    assert_eq!(ord, vec![0, 1]);
}

#[test]
fn tie_is_not_swapped() {
    // each side holds a copy of the same two documents: every exchange
    // swaps equals and gains nothing, so the order stays as it was
    let adjs = vec![
        vec![4, 5],
        vec![6, 7],
        vec![4, 5],
        vec![6, 7],
        vec![],
        vec![],
        vec![],
        vec![],
    ];
    let docs = docs_from(&adjs);
    let n = adjs.len();
    let mut ord: Vec<usize> = vec![0, 2, 1, 3];
    let improved = swap_pass(&docs, &mut ord, 0, 2, 4, n);
    assert!(!improved);
    assert_eq!(ord, vec![0, 2, 1, 3]);
}

#[test]
fn optimizer_keeps_the_document_multiset() {
    let adjs = vec![vec![1, 2], vec![0, 3], vec![0, 1], vec![2, 3]];
    let docs = docs_from(&adjs);
    let n = adjs.len();
    let mut ord: Vec<usize> = (0..n).collect();
    swap_optimizer(&docs, &mut ord, 0, 2, 4, n, 20);
    let mut sorted = ord.clone();
    sorted.sort_unstable();
    assert_eq!(sorted, vec![0, 1, 2, 3]);
}
