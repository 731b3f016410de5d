use graph_bisection::encode::{encode_cluster_file, encode_perm, BinGraph};

#[test]
fn perm_file_is_big_endian_words() {
    let perm: Vec<usize> = vec![1, 0, 258];
    let bytes = encode_perm(&perm);
    assert_eq!(bytes.len(), 24);
    assert_eq!(&bytes[0..8], &[0, 0, 0, 0, 0, 0, 0, 1]);
    assert_eq!(&bytes[8..16], &[0, 0, 0, 0, 0, 0, 0, 0]);
    assert_eq!(&bytes[16..24], &[0, 0, 0, 0, 0, 0, 1, 2]);
}

#[test]
fn perm_file_of_empty_permutation_is_empty() {
    let perm: Vec<usize> = Vec::new();
    assert!(encode_perm(&perm).is_empty());
}

#[test]
fn cluster_file_layout() {
    let perm: Vec<usize> = vec![1, 0];
    let boundaries: Vec<usize> = vec![1, 2];
    let bytes = encode_cluster_file(&perm, &boundaries);
    // permutation length, the permutation, cluster count, boundaries
    assert_eq!(bytes.len(), 8 * 6);
    assert_eq!(&bytes[0..8], &[0, 0, 0, 0, 0, 0, 0, 2]);
    assert_eq!(&bytes[8..16], &[0, 0, 0, 0, 0, 0, 0, 1]);
    assert_eq!(&bytes[16..24], &[0, 0, 0, 0, 0, 0, 0, 0]);
    assert_eq!(&bytes[24..32], &[0, 0, 0, 0, 0, 0, 0, 2]);
    assert_eq!(&bytes[32..40], &[0, 0, 0, 0, 0, 0, 0, 1]);
    assert_eq!(&bytes[40..48], &[0, 0, 0, 0, 0, 0, 0, 2]);
}

#[test]
fn bin_graph_layout() {
    let mut g = BinGraph::new();
    g.add_list(0, &vec![1, 2]);
    g.add_list(1, &vec![]);
    let bytes = g.to_bytes();
    // fingerprint: 8-byte offsets, 4-byte arcs
    assert_eq!(&bytes[0..8], &[132, 0, 0, 0, 0, 0, 0, 0]);
    // two nodes
    assert_eq!(&bytes[8..12], &[2, 0, 0, 0]);
    // offsets 0 and 2
    assert_eq!(&bytes[12..20], &[0, 0, 0, 0, 0, 0, 0, 0]);
    assert_eq!(&bytes[20..28], &[2, 0, 0, 0, 0, 0, 0, 0]);
    // two arcs in total
    assert_eq!(&bytes[28..36], &[2, 0, 0, 0, 0, 0, 0, 0]);
    // the arcs themselves
    assert_eq!(&bytes[36..40], &[1, 0, 0, 0]);
    assert_eq!(&bytes[40..44], &[2, 0, 0, 0]);
    assert_eq!(bytes.len(), 44);
}

#[test]
fn empty_bin_graph_has_only_the_header() {
    let g = BinGraph::new();
    let bytes = g.to_bytes();
    assert_eq!(bytes.len(), 8 + 4 + 8);
    assert_eq!(&bytes[0..8], &[132, 0, 0, 0, 0, 0, 0, 0]);
    assert_eq!(&bytes[8..12], &[0, 0, 0, 0]);
    assert_eq!(&bytes[12..20], &[0, 0, 0, 0, 0, 0, 0, 0]);
}
