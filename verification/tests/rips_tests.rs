use genesis::rips::{neighbor_candidates, RipsComplex};
use genesis::signal::NodeId;

fn ids(raw: &[u64]) -> Vec<NodeId> {
    raw.iter().map(|&i| NodeId::try_new(i).unwrap()).collect()
}

#[test]
fn rips_builds_correctly() {
    let c = RipsComplex::from_accepted_edges(ids(&[0, 1, 2, 3, 4]), &vec![(0, 1), (1, 2)]);
    let (n0, n1, n2) = c.counts();
    assert_eq!(n0, 5, "expected 5 vertices");
    assert_eq!(n1, 2);
    assert_eq!(n2, 0);
}

#[test]
fn candidates_are_kept_only_from_the_smaller_identifier() {
    // (1, 0) goes from id 11 to id 10 and is dropped; (0, 1) is kept once.
    let c = RipsComplex::from_accepted_edges(ids(&[10, 11, 12]), &vec![(1, 0), (0, 1), (0, 1)]);
    assert_eq!(c.counts(), (3, 1, 0));
    let edges = c.simplices_of_dim(1);
    assert_eq!(edges, vec![vec![NodeId::try_new(10).unwrap(), NodeId::try_new(11).unwrap()]]);
}

#[test]
fn edges_and_triangles_are_sorted_by_identifier() {
    // Positions 0..4 carry identifiers out of order.
    let c = RipsComplex::from_accepted_edges(
        ids(&[30, 10, 20, 40]),
        &vec![(1, 2), (1, 0), (2, 0), (0, 3)],
    );
    let e: Vec<Vec<u64>> =
        c.simplices_of_dim(1).iter().map(|s| s.iter().map(|n| n.get()).collect()).collect();
    assert_eq!(e, vec![vec![10, 20], vec![10, 30], vec![20, 30], vec![30, 40]]);
    let t: Vec<Vec<u64>> =
        c.simplices_of_dim(2).iter().map(|s| s.iter().map(|n| n.get()).collect()).collect();
    // The triangle is listed by position order: positions 0 < 1 < 2.
    assert_eq!(t, vec![vec![30, 10, 20]]);
}

#[test]
fn simplices_of_other_dimensions_are_empty() {
    let c = RipsComplex::from_accepted_edges(ids(&[0, 1, 2]), &vec![(0, 1), (1, 2), (0, 2)]);
    assert_eq!(c.simplices_of_dim(0).len(), 3);
    assert_eq!(c.simplices_of_dim(2).len(), 1);
    assert!(c.simplices_of_dim(3).is_empty());
    assert!(c.simplices_of_dim(7).is_empty());
}

#[test]
fn adjacency_csr_returns_data_and_offsets_in_order() {
    let c = RipsComplex::from_accepted_edges(ids(&[0, 1, 2, 3]), &vec![(0, 3), (0, 1), (2, 3)]);
    let csr = c.adjacency_csr();
    assert_eq!(csr.offsets, &[0, 2, 3, 4, 6]);
    assert_eq!(csr.data, &[1, 3, 0, 3, 0, 2]);
    assert_eq!(csr.offsets.len(), c.counts().0 + 1);
    assert!(csr.offsets.windows(2).all(|w| w[0] <= w[1]));
    assert_eq!(*csr.offsets.last().unwrap(), csr.data.len());
}

#[test]
fn empty_complex_has_single_offset() {
    let c = RipsComplex::from_accepted_edges(Vec::new(), &Vec::new());
    assert_eq!(c.counts(), (0, 0, 0));
    assert_eq!(c.adjacency_csr().offsets, &[0]);
}

#[test]
fn four_clique_has_four_triangles() {
    let c = RipsComplex::from_accepted_edges(
        ids(&[0, 1, 2, 3]),
        &vec![(0, 1), (0, 2), (0, 3), (1, 2), (1, 3), (2, 3)],
    );
    assert_eq!(c.counts(), (4, 6, 4));
}

#[test]
fn neighbour_candidates_pair_positions_towards_larger_identifiers() {
    // positions: 0 -> id 30, 1 -> id 10, 2 -> id 20
    let nodes = ids(&[30, 10, 20]);
    let lists = vec![ids(&[10, 20]), ids(&[30, 20, 99]), ids(&[30, 10])];
    // id 30 has no larger neighbour; id 10 reaches 30 and 20 (99 is not a
    // node); id 20 reaches 30 only.
    assert_eq!(
        neighbor_candidates(&nodes, &lists),
        Some(vec![(1, 0), (1, 2), (2, 0)])
    );
}

#[test]
fn neighbour_candidates_refuse_repeated_identifiers() {
    let nodes = ids(&[5, 7, 5]);
    let lists = vec![ids(&[7]), ids(&[5]), Vec::new()];
    assert_eq!(neighbor_candidates(&nodes, &lists), None);
    assert_eq!(neighbor_candidates(&ids(&[]), &Vec::new()), Some(Vec::new()));
}

#[test]
fn adjacency_payload_lists_each_edge_twice() {
    // distinct candidates, one of them pointing from the larger identifier
    let c = RipsComplex::from_accepted_edges(ids(&[4, 9, 2, 7]), &vec![(0, 1), (2, 0), (1, 3), (3, 1), (2, 3)]);
    let (_, n1, _) = c.counts();
    let csr = c.adjacency_csr();
    assert_eq!(n1, 4);
    assert_eq!(csr.data.len(), 2 * n1);
    assert_eq!(*csr.offsets.last().unwrap(), csr.data.len());
}
