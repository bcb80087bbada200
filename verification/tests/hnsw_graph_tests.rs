use genesis::hnsw_graph::{HnswGraph, ScoredNeighbor};
use genesis::{GenesisError, NodeId};

fn id(raw: u64) -> NodeId {
    NodeId::try_new(raw).unwrap()
}

/// Registers the identifiers with their levels, in order.
fn graph_with(nodes: &[(u64, usize)]) -> HnswGraph {
    let mut g = HnswGraph::new(64);
    for &(raw, level) in nodes {
        assert_eq!(g.register_node(id(raw), level), Ok(()));
    }
    g
}

/// Adds an undirected edge at a layer.
fn link(g: &mut HnswGraph, a: usize, b: usize, layer: usize) {
    g.add_edge(a, layer, b);
    g.add_edge(b, layer, a);
}

#[test]
fn registered_nodes_are_found_before_and_after_compaction() {
    let wide = 1u64 << 40;
    let mut g = graph_with(&[(5, 0), (3, 1), (wide, 0), (u32::MAX as u64, 0)]);
    assert_eq!(g.node_count(), 4);
    assert_eq!(g.idx(id(5)), Some(0));
    assert_eq!(g.idx(id(3)), Some(1));
    assert_eq!(g.idx(id(wide)), Some(2));
    assert_eq!(g.idx(id(u32::MAX as u64)), Some(3));
    assert_eq!(g.idx(id(4)), None);
    g.compact_index();
    assert_eq!(g.idx(id(5)), Some(0));
    assert_eq!(g.idx(id(3)), Some(1));
    assert_eq!(g.idx(id(wide)), Some(2));
    assert_eq!(g.idx(id(u32::MAX as u64)), Some(3));
    assert_eq!(g.idx(id(4)), None);
    g.compact_index();
    assert_eq!(g.idx(id(3)), Some(1));
}

#[test]
fn registration_refuses_the_sentinel_and_a_compacted_index() {
    let mut g = graph_with(&[(1, 0)]);
    assert_eq!(
        g.register_node(NodeId::invalid(), 0),
        Err(GenesisError::InvariantViolation { axiom_id: 4 })
    );
    assert_eq!(g.register_node(id(1), 3), Ok(()));
    assert_eq!(g.node_count(), 1);
    assert_eq!(g.nodes(), vec![id(1)]);
    g.compact_index();
    assert_eq!(
        g.register_node(id(2), 0),
        Err(GenesisError::InvariantViolation { axiom_id: 13 })
    );
    assert_eq!(g.node_count(), 1);
}

#[test]
fn entry_point_follows_the_highest_layer() {
    let mut g = HnswGraph::new(16);
    assert_eq!(g.entry_node(), None);
    assert_eq!(g.register_node(id(10), 0), Ok(()));
    assert_eq!(g.entry_node(), Some((0, 0)));
    assert_eq!(g.register_node(id(11), 2), Ok(()));
    assert_eq!(g.entry_node(), Some((1, 2)));
    assert_eq!(g.register_node(id(12), 2), Ok(()));
    assert_eq!(g.entry_node(), Some((1, 2)));
    assert_eq!(g.register_node(id(13), 1), Ok(()));
    assert_eq!(g.remove_node(id(11)), Ok(()));
    assert_eq!(g.entry_node(), Some((2, 2)));
    assert_eq!(g.remove_node(id(12)), Ok(()));
    assert_eq!(g.entry_node(), Some((3, 1)));
    assert_eq!(g.remove_node(id(13)), Ok(()));
    assert_eq!(g.remove_node(id(10)), Ok(()));
    assert_eq!(g.entry_node(), None);
    assert_eq!(g.node_count(), 0);
}

#[test]
fn edges_are_counted_and_bounded_by_the_node_layer() {
    let mut g = graph_with(&[(1, 0), (2, 1), (3, 1)]);
    link(&mut g, 0, 1, 0);
    link(&mut g, 1, 2, 0);
    assert_eq!(g.edge_count(), 2);
    // node 0 only reaches layer 0: its layer-1 edge is not added
    g.add_edge(0, 1, 2);
    assert_eq!(g.neighbors(id(1)), vec![id(2)]);
    link(&mut g, 1, 2, 1);
    assert_eq!(g.edge_count(), 2);
    // the same neighbour on two layers is reported once
    assert_eq!(g.neighbors(id(2)), vec![id(1), id(3)]);
    assert_eq!(g.neighbors(id(3)), vec![id(2)]);
    assert_eq!(g.neighbors(id(9)), Vec::<NodeId>::new());
    assert_eq!(g.remove_edge_bidirectional(0, 0, 1), 2);
    assert_eq!(g.remove_edge_bidirectional(0, 0, 1), 0);
    assert_eq!(g.edge_count(), 1);
    assert!(!g.remove_edge(1, 5, 2));
}

#[test]
fn removing_a_node_unlinks_its_neighbours() {
    let mut g = graph_with(&[(1, 0), (2, 0), (3, 0)]);
    link(&mut g, 0, 1, 0);
    link(&mut g, 0, 2, 0);
    link(&mut g, 1, 2, 0);
    assert_eq!(g.edge_count(), 3);
    assert_eq!(g.remove_node(id(1)), Ok(()));
    assert_eq!(g.neighbors(id(2)), vec![id(3)]);
    assert_eq!(g.neighbors(id(3)), vec![id(2)]);
    assert_eq!(g.edge_count(), 1);
    assert_eq!(g.node_count(), 2);
    assert_eq!(g.idx(id(1)), None);
    assert_eq!(g.nodes(), vec![id(2), id(3)]);
    assert_eq!(g.nodes().len(), g.node_count());
    assert_eq!(
        g.remove_node(id(1)),
        Err(GenesisError::InvariantViolation { axiom_id: 4 })
    );
    // a removed identifier can be registered again, in a new slot
    assert_eq!(g.register_node(id(1), 0), Ok(()));
    assert_eq!(g.idx(id(1)), Some(3));
    assert_eq!(g.nodes(), vec![id(2), id(3), id(1)]);
}

#[test]
fn one_way_edges_to_a_removed_node_stay() {
    let mut g = graph_with(&[(1, 0), (2, 0)]);
    g.add_edge(0, 0, 1);
    assert_eq!(g.edge_count(), 0);
    assert_eq!(g.remove_node(id(2)), Ok(()));
    assert_eq!(g.neighbors(id(1)), vec![NodeId::invalid()]);
    assert_eq!(g.remove_edge_bidirectional(0, 0, 1), 1);
    assert_eq!(g.neighbors(id(1)), Vec::<NodeId>::new());
}

#[test]
fn pruning_keeps_the_closest_and_unlinks_the_rest() {
    let mut g = graph_with(&[(1, 0), (2, 0), (3, 0), (4, 0), (5, 0)]);
    for other in 1..5 {
        link(&mut g, 0, other, 0);
    }
    assert_eq!(g.edge_count(), 4);
    let scored = vec![
        ScoredNeighbor { key: 30, neighbor: 1 },
        ScoredNeighbor { key: 10, neighbor: 2 },
        ScoredNeighbor { key: 20, neighbor: 3 },
        ScoredNeighbor { key: 10, neighbor: 4 },
    ];
    // at most four neighbours: nothing to prune
    g.prune_layer(0, 0, 4, &scored);
    assert_eq!(g.edge_count(), 4);
    // above the node's layer: nothing to prune
    g.prune_layer(0, 1, 0, &Vec::new());
    g.prune_layer(0, 0, 2, &scored);
    assert_eq!(g.neighbors(id(1)), vec![id(3), id(5)]);
    assert_eq!(g.neighbors(id(2)), Vec::<NodeId>::new());
    assert_eq!(g.neighbors(id(4)), Vec::<NodeId>::new());
    assert_eq!(g.neighbors(id(3)), vec![id(1)]);
    assert_eq!(g.edge_count(), 2);
}

#[test]
fn neighbour_collection_skips_marked_and_out_of_range_slots() {
    let mut g = graph_with(&[(1, 1), (2, 0), (3, 1)]);
    link(&mut g, 0, 1, 0);
    link(&mut g, 0, 2, 0);
    link(&mut g, 0, 2, 1);
    let mut marks = vec![0u32; 3];
    let mut out: Vec<usize> = vec![9];
    assert_eq!(g.extend_neighbors_dedup(id(1), &mut marks, 7, &mut out), 2);
    assert_eq!(out, vec![9, 1, 2]);
    assert_eq!(marks, vec![0, 7, 7]);
    assert_eq!(g.extend_neighbors_dedup(id(1), &mut marks, 7, &mut out), 0);
    assert_eq!(g.extend_neighbors_dedup(id(1), &mut marks, 0, &mut out), 0);
    assert_eq!(g.extend_neighbors_dedup(id(8), &mut marks, 3, &mut out), 0);
    let mut short = vec![0u32; 2];
    let mut out2: Vec<usize> = Vec::new();
    assert_eq!(g.extend_neighbors_dedup(id(1), &mut short, 5, &mut out2), 1);
    assert_eq!(out2, vec![1]);
    assert_eq!(g.extend_neighbors_dedup(id(3), &mut marks, 8, &mut out2), 1);
    assert_eq!(out2, vec![1, 0]);
}
