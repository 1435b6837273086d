use cfa2_kernel::matrices::{
    edge_endpoint_offsets, edges_in_range, node_offset, EDGE_SOURCE, EDGE_TARGET, EDGE_WEIGHT,
    NODE_MASS, NODE_X, NODE_Y, PPE, PPN, PPR, REGION_FIRST_CHILD, REGION_NODE, SUBDIVISION_ATTEMPTS,
};

#[test]
fn slot_layout_matches_graphology() {
    assert_eq!(PPN, 10);
    assert_eq!(PPE, 3);
    assert_eq!(PPR, 9);
    assert_eq!(NODE_X, 0);
    assert_eq!(NODE_Y, 1);
    assert_eq!(NODE_MASS, 6);
    assert_eq!((EDGE_SOURCE, EDGE_TARGET, EDGE_WEIGHT), (0, 1, 2));
    assert_eq!((REGION_NODE, REGION_FIRST_CHILD), (0, 5));
    assert_eq!(SUBDIVISION_ATTEMPTS, 3);
}

#[test]
fn node_offsets_are_index_times_ppn() {
    assert_eq!(node_offset(0), 0);
    assert_eq!(node_offset(1), 10);
    assert_eq!(node_offset(7), 70);
}

#[test]
fn edge_offsets_store_offsets_not_ids() {
    // path graph 0-1-2
    let offs = edge_endpoint_offsets(3, &[(0, 1), (1, 2)]);
    assert_eq!(offs, vec![(0, PPN), (PPN, 2 * PPN)]);
    assert_eq!(edge_endpoint_offsets(2, &[]), vec![]);
}

#[test]
fn edges_out_of_range_are_detected() {
    assert!(edges_in_range(3, &[(0, 1), (1, 2)]));
    assert!(!edges_in_range(3, &[(0, 1), (1, 3)]));
    assert!(!edges_in_range(0, &[(0, 0)]));
    assert!(edges_in_range(0, &[]));
}
