use genesis::phase_semantics::{SemanticCluster, SemanticMarker, SEMANTIC_CLUSTER_MAX_NODES};
use genesis::signal::NodeId;
use genesis::GenesisError;

#[test]
fn semantic_cluster_from_nodes_valid_slice_roundtrips() {
    let input = [
        NodeId::try_new(1).expect("1 is inside the valid NodeId range"),
        NodeId::try_new(4).expect("4 is inside the valid NodeId range"),
        NodeId::try_new(9).expect("9 is inside the valid NodeId range"),
    ];
    let cluster = SemanticCluster::from_nodes(&input, SemanticMarker::Exploration, 0.75f64.to_bits())
        .expect("valid sorted unique input must produce a cluster");

    assert_eq!(usize::from(cluster.node_count), input.len());
    assert_eq!(cluster.nodes().expect("node_count is valid"), input.as_slice());
    assert_eq!(cluster.nodes().expect("node_count is valid").len(), input.len());
}

#[test]
fn semantic_cluster_from_nodes_rejects_oversized_input() {
    let oversized = [NodeId::invalid(); SEMANTIC_CLUSTER_MAX_NODES + 1];
    assert!(SemanticCluster::from_nodes(&oversized, SemanticMarker::Certainty, 1.0f64.to_bits()).is_err());
}

#[test]
fn semantic_cluster_from_nodes_rejects_invalid_sentinel_within_capacity() {
    let within_capacity = [
        NodeId::try_new(1).expect("1 is inside the valid NodeId range"),
        NodeId::invalid(),
    ];
    assert!(
        SemanticCluster::from_nodes(&within_capacity, SemanticMarker::Certainty, 1.0f64.to_bits()).is_err()
    );
}

#[test]
fn semantic_cluster_from_nodes_rejects_non_monotonic_or_duplicate_input() {
    let duplicate = [
        NodeId::try_new(2).expect("2 is inside the valid NodeId range"),
        NodeId::try_new(2).expect("2 is inside the valid NodeId range"),
    ];
    assert!(SemanticCluster::from_nodes(&duplicate, SemanticMarker::Conflict, 0.2f64.to_bits()).is_err());

    let non_monotonic = [
        NodeId::try_new(5).expect("5 is inside the valid NodeId range"),
        NodeId::try_new(3).expect("3 is inside the valid NodeId range"),
    ];
    assert!(
        SemanticCluster::from_nodes(&non_monotonic, SemanticMarker::Conflict, 0.2f64.to_bits()).is_err()
    );
}

#[test]
fn semantic_cluster_canonical_key_rejects_out_of_range_node_count() {
    let invalid = SemanticCluster {
        nodes: [NodeId::invalid(); SEMANTIC_CLUSTER_MAX_NODES],
        node_count: (SEMANTIC_CLUSTER_MAX_NODES + 1) as u8,
        marker: SemanticMarker::Certainty,
        coherence_bits: 1.0f64.to_bits(),
    };

    assert_eq!(invalid.canonical_key(), Err(GenesisError::InvariantViolation { axiom_id: 4 }));
    assert_eq!(invalid.nodes(), Err(GenesisError::InvariantViolation { axiom_id: 4 }));
}

#[test]
fn canonical_key_pads_with_sentinels() {
    let input = [NodeId::try_new(3).unwrap(), NodeId::try_new(7).unwrap()];
    let cluster = SemanticCluster::from_nodes(&input, SemanticMarker::Integration, 0).unwrap();
    let (key, count) = cluster.canonical_key().unwrap();
    assert_eq!(count, 2);
    assert_eq!(key[0], input[0]);
    assert_eq!(key[1], input[1]);
    for slot in &key[2..] {
        assert_eq!(*slot, NodeId::invalid());
    }
}

#[test]
fn canonical_key_ignores_stale_inactive_slots() {
    let mut nodes = [NodeId::invalid(); SEMANTIC_CLUSTER_MAX_NODES];
    nodes[0] = NodeId::try_new(1).unwrap();
    nodes[5] = NodeId::try_new(2).unwrap();
    let cluster = SemanticCluster {
        nodes,
        node_count: 1,
        marker: SemanticMarker::Collapse,
        coherence_bits: 0,
    };
    let (key, count) = cluster.canonical_key().unwrap();
    assert_eq!(count, 1);
    assert_eq!(key[0], NodeId::try_new(1).unwrap());
    assert_eq!(key[5], NodeId::invalid());
    assert_eq!(cluster.nodes().unwrap(), vec![NodeId::try_new(1).unwrap()]);
}

#[test]
fn canonical_key_reports_the_sentinel_in_the_active_prefix() {
    let mut nodes = [NodeId::invalid(); SEMANTIC_CLUSTER_MAX_NODES];
    nodes[0] = NodeId::try_new(1).unwrap();
    let cluster = SemanticCluster {
        nodes,
        node_count: 2,
        marker: SemanticMarker::Conflict,
        coherence_bits: 0,
    };
    assert_eq!(cluster.canonical_key(), Err(GenesisError::NodeIdOutOfRange { raw: u64::MAX }));
}

#[test]
fn empty_cluster_is_accepted() {
    let cluster = SemanticCluster::from_nodes(&[], SemanticMarker::Certainty, 0).unwrap();
    assert_eq!(cluster.node_count, 0);
    assert!(cluster.nodes().unwrap().is_empty());
}
