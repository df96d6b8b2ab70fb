use topictrend::CsrAdjacency;

#[test]
fn test_empty_csr() {
    let csr = CsrAdjacency::from_pairs(3, &[]);
    assert_eq!(csr.get(0), &[] as &[u32]);
    assert_eq!(csr.get(1), &[] as &[u32]);
    assert_eq!(csr.get(2), &[] as &[u32]);
}

#[test]
fn test_single_edge() {
    let pairs = vec![(0, 5)];
    let csr = CsrAdjacency::from_pairs(2, &pairs);
    assert_eq!(csr.get(0), &[5]);
    assert_eq!(csr.get(1), &[] as &[u32]);
}

#[test]
fn test_multiple_edges_same_source() {
    let pairs = vec![(0, 1), (0, 2), (0, 3)];
    let csr = CsrAdjacency::from_pairs(2, &pairs);
    let neighbors = csr.get(0);
    assert_eq!(neighbors.len(), 3);
    assert!(neighbors.contains(&1));
    assert!(neighbors.contains(&2));
    assert!(neighbors.contains(&3));
    assert_eq!(csr.get(1), &[] as &[u32]);
}

#[test]
fn test_multiple_sources() {
    let pairs = vec![(0, 10), (1, 20), (2, 30), (1, 21)];
    let csr = CsrAdjacency::from_pairs(3, &pairs);
    assert_eq!(csr.get(0), &[10]);
    let node1_neighbors = csr.get(1);
    assert_eq!(node1_neighbors.len(), 2);
    assert!(node1_neighbors.contains(&20));
    assert!(node1_neighbors.contains(&21));
    assert_eq!(csr.get(2), &[30]);
}

#[test]
fn test_out_of_bounds_source() {
    let pairs = vec![(0, 1), (5, 2)];
    let csr = CsrAdjacency::from_pairs(3, &pairs);
    assert_eq!(csr.get(0), &[1]);
    assert_eq!(csr.get(1), &[] as &[u32]);
    assert_eq!(csr.get(2), &[] as &[u32]);
}

#[test]
fn test_get_out_of_bounds_id() {
    let pairs = vec![(0, 1), (1, 2)];
    let csr = CsrAdjacency::from_pairs(2, &pairs);
    assert_eq!(csr.get(0), &[1]);
    assert_eq!(csr.get(1), &[2]);
    assert_eq!(csr.get(10), &[] as &[u32]);
}

#[test]
fn test_duplicate_pairs() {
    let pairs = vec![(0, 1), (0, 1), (1, 2)];
    let csr = CsrAdjacency::from_pairs(2, &pairs);
    assert_eq!(csr.get(0), &[1, 1]);
    assert_eq!(csr.get(1), &[2]);
}

#[test]
fn test_large_node_ids() {
    let pairs = vec![(0, 100), (1, 200)];
    let csr = CsrAdjacency::from_pairs(2, &pairs);
    assert_eq!(csr.get(0), &[100]);
    assert_eq!(csr.get(1), &[200]);
}

#[test]
fn test_order_preserved_per_source() {
    let pairs = vec![(1, 9), (0, 7), (1, 3), (0, 8), (1, 5)];
    let csr = CsrAdjacency::from_pairs(2, &pairs);
    assert_eq!(csr.get(0), &[7, 8]);
    assert_eq!(csr.get(1), &[9, 3, 5]);
}
