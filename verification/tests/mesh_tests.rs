use weaver::mesh::cone_indices;

#[test]
fn cone_of_four_joins_each_ring_edge_to_the_tip() {
    assert_eq!(cone_indices(4), vec![0, 1, 4, 1, 2, 4, 2, 3, 4, 3, 0, 4]);
    assert!(cone_indices(0).is_empty());
    assert_eq!(cone_indices(1), vec![0, 0, 1]);
}
