use genesis::incremental_cohomology::{IncrementalD2, IncrementalH1State, PersistentUnionFind};
use genesis::signal::NodeId;

fn node(n: u64) -> NodeId {
    NodeId::try_new(n).expect("NodeId válido")
}

#[test]
fn single_triangle_h1_zero() {
    let mut s = IncrementalH1State::new();
    let (a, b, c) = (node(0), node(1), node(2));
    for _ in 0..3 {
        s.add_node();
    }
    s.add_edge(a, b);
    s.add_edge(b, c);
    s.add_edge(a, c);
    s.add_triangle(a, b, c);
    assert!(s.h1_is_zero(), "Triángulo relleno debe tener H¹ = 0");
}

#[test]
fn cycle_without_fill_h1_nonzero() {
    let mut s = IncrementalH1State::new();
    let (a, b, c) = (node(0), node(1), node(2));
    for _ in 0..3 {
        s.add_node();
    }
    s.add_edge(a, b);
    s.add_edge(b, c);
    s.add_edge(a, c);
    assert!(!s.h1_is_zero(), "Ciclo sin relleno debe tener H¹ ≠ 0");
    assert_eq!(s.h1_dim(), 1);
}

#[test]
fn empty_graph_h1_zero() {
    let s = IncrementalH1State::new();
    assert!(s.h1_is_zero(), "Grafo vacío: H¹ = 0");
}

#[test]
fn add_edge_idempotent() {
    let mut s = IncrementalH1State::new();
    let (a, b) = (node(0), node(1));
    s.add_node();
    s.add_node();
    let id1 = s.add_edge(a, b);
    let id2 = s.add_edge(a, b);
    assert_eq!(id1, id2, "add_edge debe ser idempotente");
    assert_eq!(s.num_edges(), 1);
}

#[test]
fn two_triangles_sharing_edge_h1_zero() {
    let mut s = IncrementalH1State::new();
    let nodes: Vec<NodeId> = (0..4)
        .map(|i| {
            s.add_node();
            node(i)
        })
        .collect();
    let (a, b, c, d) = (nodes[0], nodes[1], nodes[2], nodes[3]);
    s.add_edge(a, b);
    s.add_edge(b, c);
    s.add_edge(a, c);
    s.add_triangle(a, b, c);
    s.add_edge(a, d);
    s.add_edge(b, d);
    s.add_triangle(a, b, d);
    assert!(s.h1_is_zero());
}

#[test]
fn reversed_endpoints_name_the_same_edge() {
    let mut s = IncrementalH1State::default();
    s.add_node();
    s.add_node();
    assert_eq!(s.add_edge(node(0), node(1)), 0);
    assert_eq!(s.add_edge(node(1), node(0)), 0);
    assert_eq!(s.num_edges(), 1);
}

#[test]
fn triangle_with_missing_side_changes_nothing() {
    let mut s = IncrementalH1State::new();
    for _ in 0..3 {
        s.add_node();
    }
    s.add_edge(node(0), node(1));
    s.add_edge(node(1), node(2));
    s.add_triangle(node(0), node(1), node(2));
    assert_eq!(s.h1_dim(), 0);
    s.add_edge(node(0), node(2));
    assert_eq!(s.h1_dim(), 1);
    s.add_triangle(node(0), node(1), node(2));
    assert_eq!(s.h1_dim(), 0);
}

#[test]
fn square_with_diagonal_needs_two_fills() {
    let mut s = IncrementalH1State::new();
    for _ in 0..4 {
        s.add_node();
    }
    for (u, v) in [(0, 1), (1, 2), (2, 3), (0, 3), (0, 2)] {
        s.add_edge(node(u), node(v));
    }
    // 5 edges, 4 nodes, 1 component: dim ker ∂₁ = 2.
    assert_eq!(s.h1_dim(), 2);
    s.add_triangle(node(0), node(1), node(2));
    assert_eq!(s.h1_dim(), 1);
    // The same triangle again is dependent.
    s.add_triangle(node(0), node(1), node(2));
    assert_eq!(s.h1_dim(), 1);
    s.add_triangle(node(0), node(2), node(3));
    assert_eq!(s.h1_dim(), 0);
}

#[test]
fn union_find_counts_components() {
    let mut uf = PersistentUnionFind::new();
    for _ in 0..5 {
        uf.add_node();
    }
    assert_eq!(uf.rank_d1(), 0);
    assert!(uf.union(0, 1));
    assert!(uf.union(3, 4));
    assert!(!uf.union(1, 0));
    assert_eq!(uf.rank_d1(), 2);
    assert!(uf.union(1, 4));
    assert_eq!(uf.find(0), uf.find(3));
    assert_ne!(uf.find(0), uf.find(2));
    assert_eq!(uf.rank_d1(), 3);
}

#[test]
fn incremental_d2_detects_dependent_boundaries() {
    let mut d2 = IncrementalD2::new();
    for e in 0..6u32 {
        d2.register_edge(e);
    }
    assert_eq!(d2.rank(), 0);
    // Boundaries of the four faces of a tetrahedron on edges
    // 01=0, 02=1, 03=2, 12=3, 13=4, 23=5.
    assert!(d2.add_triangle(0, 1, 3));
    assert!(d2.add_triangle(0, 2, 4));
    assert!(d2.add_triangle(1, 2, 5));
    // The fourth face is the sum of the other three.
    assert!(!d2.add_triangle(3, 4, 5));
    assert_eq!(d2.rank(), 3);
}
