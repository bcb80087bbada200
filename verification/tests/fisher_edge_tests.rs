use genesis::fisher_edge::FisherEdgeMetric;
use genesis::signal::NodeId;

fn node(n: u64) -> NodeId {
    NodeId::try_new(n).expect("NodeId válido")
}

fn bits(x: f64) -> u64 {
    x.to_bits()
}

#[test]
fn get_existing_edge_returns_value() {
    let m = FisherEdgeMetric::new(vec![((node(0), node(1)), bits(0.5))]);
    assert!((f64::from_bits(m.get(node(0), node(1))) - 0.5).abs() < 1e-15);
    assert!((f64::from_bits(m.get(node(1), node(0))) - 0.5).abs() < 1e-15);
}

#[test]
fn get_missing_edge_returns_zero() {
    let m = FisherEdgeMetric::new(vec![]);
    assert_eq!(f64::from_bits(m.get(node(0), node(1))), 0.0);
}

#[test]
fn is_current_reflects_nodes_in_edges() {
    let m = FisherEdgeMetric::new(vec![((node(2), node(5)), bits(1.0))]);
    assert!(m.is_current(node(2)));
    assert!(m.is_current(node(5)));
    assert!(!m.is_current(node(0)));
}

#[test]
fn edges_iterator_yields_all_entries() {
    let m = FisherEdgeMetric::new(vec![((node(0), node(1)), bits(0.3)), ((node(1), node(2)), bits(0.7))]);
    let v = m.edges();
    assert_eq!(v.len(), 2);
}

#[test]
fn set_updates_existing_edge_in_place() {
    let mut m = FisherEdgeMetric::new(vec![((node(0), node(1)), bits(0.5))]);
    m.set(node(0), node(1), bits(0.9));
    assert!(
        (f64::from_bits(m.get(node(0), node(1))) - 0.9).abs() < 1e-15,
        "set must update existing edge"
    );
    assert_eq!(m.edges().len(), 1, "no duplicate created");
}

#[test]
fn set_inserts_new_edge() {
    let mut m = FisherEdgeMetric::new(vec![]);
    m.set(node(3), node(7), bits(0.4));
    assert!((f64::from_bits(m.get(node(3), node(7))) - 0.4).abs() < 1e-15);
    assert_eq!(m.edges().len(), 1);
    assert!(m.is_current(node(3)));
    assert!(m.is_current(node(7)));
}

#[test]
fn remove_deletes_edge_and_updates_current_nodes() {
    let mut m = FisherEdgeMetric::new(vec![((node(0), node(1)), bits(0.5)), ((node(1), node(2)), bits(0.7))]);
    m.remove(node(0), node(1));
    assert_eq!(f64::from_bits(m.get(node(0), node(1))), 0.0, "removed edge returns 0");
    assert!(!m.is_current(node(0)), "node 0 no longer has edges");
    assert!(m.is_current(node(1)), "node 1 still has edge to node 2");
}

#[test]
fn set_maintains_sorted_order_for_binary_search() {
    let mut m = FisherEdgeMetric::new(vec![]);
    m.set(node(5), node(9), bits(1.0));
    m.set(node(1), node(3), bits(2.0));
    m.set(node(2), node(7), bits(3.0));
    assert!((f64::from_bits(m.get(node(5), node(9))) - 1.0).abs() < 1e-15);
    assert!((f64::from_bits(m.get(node(1), node(3))) - 2.0).abs() < 1e-15);
    assert!((f64::from_bits(m.get(node(2), node(7))) - 3.0).abs() < 1e-15);
}

#[test]
fn construction_canonicalises_sorts_and_keeps_first_duplicate() {
    let m = FisherEdgeMetric::new(vec![
        ((node(9), node(4)), 7),
        ((node(1), node(2)), 8),
        ((node(4), node(9)), 9),
    ]);
    let v = m.edges();
    assert_eq!(v.len(), 2);
    assert_eq!((v[0].0.get(), v[0].1.get(), v[0].2), (1, 2, 8));
    assert_eq!((v[1].0.get(), v[1].1.get(), v[1].2), (4, 9, 7));
}

#[test]
fn degree_survives_until_last_edge_is_removed() {
    let mut m = FisherEdgeMetric::default();
    m.set(node(1), node(2), 1);
    m.set(node(1), node(3), 1);
    m.remove(node(2), node(1));
    assert!(m.is_current(node(1)));
    assert!(!m.is_current(node(2)));
    m.remove(node(3), node(1));
    assert!(!m.is_current(node(1)));
    // Removing a missing edge changes nothing.
    m.remove(node(7), node(8));
    assert!(m.edges().is_empty());
}

#[test]
fn self_loop_counts_once_as_an_edge() {
    let mut m = FisherEdgeMetric::default();
    m.set(node(4), node(4), 5);
    assert!(m.is_current(node(4)));
    m.remove(node(4), node(4));
    assert!(!m.is_current(node(4)));
}
