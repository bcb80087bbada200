use genesis::adjacency::{layer_max_neighbors, NodeAdj, M, M0, MAX_LAYERS};

/// Block groups computed directly from a list of slab positions.
fn groups_of(slabs: &[u32]) -> Vec<(u32, u8)> {
    let mut out: Vec<(u32, u8)> = Vec::new();
    let mut sorted = slabs.to_vec();
    sorted.sort_unstable();
    for s in sorted {
        let block = s >> 3;
        let bit = 1u8 << (s & 7);
        match out.last_mut() {
            Some(last) if last.0 == block => last.1 |= bit,
            _ => out.push((block, bit)),
        }
    }
    out
}

#[test]
fn budgets_per_layer() {
    assert_eq!(layer_max_neighbors(0), 32);
    assert_eq!(layer_max_neighbors(1), 16);
    assert_eq!(layer_max_neighbors(15), 16);
    assert_eq!(M0, 2 * M);
    assert_eq!(MAX_LAYERS, 16);
}

#[test]
fn packed_words_keep_neighbour_and_slab() {
    let p = NodeAdj::pack_layer0(7, 9);
    assert_eq!(p, (7u64 << 32) | 9);
    assert_eq!(NodeAdj::unpack_layer0_neighbor(p), 7);
    assert_eq!(NodeAdj::unpack_layer0_slab(p), 9);
    let q = NodeAdj::pack_layer0(u32::MAX, u32::MAX);
    assert_eq!(q, u64::MAX);
    assert_eq!(NodeAdj::unpack_layer0_neighbor(q), u32::MAX);
    assert_eq!(NodeAdj::unpack_layer0_slab(q), u32::MAX);
}

#[test]
fn layer0_stays_sorted_without_duplicates() {
    let mut adj = NodeAdj::default();
    for (n, s) in [(5u32, 50u32), (1, 10), (9, 90), (3, 30)] {
        assert!(adj.add_neighbor(0, n, s, M0));
    }
    assert!(!adj.add_neighbor(0, 3, 30, M0));
    assert!(!adj.add_neighbor(0, 9, 90, M0));
    assert_eq!(adj.neighbors_iter(0), vec![1, 3, 5, 9]);
    assert_eq!(adj.neighbors_len(0), 4);
    assert_eq!(adj.neighbor_at(0, 2), Some(5));
    assert_eq!(adj.neighbor_at(0, 4), None);
}

#[test]
fn layer0_groups_mark_exactly_the_slab_positions() {
    let mut adj = NodeAdj::default();
    let entries = [(4u32, 3u32), (2, 17), (8, 5), (6, 9), (1, 0), (3, 23)];
    for (n, s) in entries {
        assert!(adj.add_neighbor(0, n, s, M0));
    }
    let slabs: Vec<u32> = entries.iter().map(|e| e.1).collect();
    assert_eq!(adj.layer0_groups().to_vec(), groups_of(&slabs));
    assert_eq!(adj.layer0_groups().to_vec(), vec![(0, 0b0010_1001), (1, 0b10), (2, 0b1000_0010)]);
}

#[test]
fn removing_a_layer0_neighbour_clears_its_lane() {
    let mut adj = NodeAdj::default();
    for (n, s) in [(4u32, 3u32), (8, 5), (2, 17)] {
        assert!(adj.add_neighbor(0, n, s, M0));
    }
    assert!(adj.remove_neighbor(0, 8));
    assert_eq!(adj.layer0_groups().to_vec(), vec![(0, 0b1000), (2, 0b10)]);
    assert!(adj.remove_neighbor(0, 4));
    assert_eq!(adj.layer0_groups().to_vec(), vec![(2, 0b10)]);
    assert!(!adj.remove_neighbor(0, 4));
    assert_eq!(adj.neighbors_iter(0), vec![2]);
    assert!(adj.remove_neighbor(0, 2));
    assert!(adj.layer0_groups().is_empty());
    assert_eq!(adj.neighbors_len(0), 0);
}

#[test]
fn full_layer_refuses_a_new_neighbour() {
    let mut adj = NodeAdj::default();
    assert!(adj.add_neighbor(0, 1, 1, 2));
    assert!(adj.add_neighbor(0, 2, 2, 2));
    assert!(!adj.add_neighbor(0, 3, 3, 2));
    assert_eq!(adj.neighbors_iter(0), vec![1, 2]);
    assert!(adj.add_neighbor(2, 10, 0, 1));
    assert!(!adj.add_neighbor(2, 11, 0, 1));
    assert_eq!(adj.neighbors_iter(2), vec![10]);
    assert!(!adj.add_neighbor(1, 5, 0, 0));
    assert_eq!(adj.neighbors_len(1), 0);
}

#[test]
fn upper_layers_are_independent_and_sorted() {
    let mut adj = NodeAdj::default();
    assert_eq!(adj.neighbors_len(3), 0);
    assert!(adj.add_neighbor(3, 42, 0, M));
    assert!(adj.add_neighbor(3, 7, 0, M));
    assert!(adj.add_neighbor(1, 9, 0, M));
    assert!(!adj.add_neighbor(3, 42, 0, M));
    assert_eq!(adj.neighbors_iter(3), vec![7, 42]);
    assert_eq!(adj.neighbors_iter(1), vec![9]);
    assert_eq!(adj.neighbors_len(2), 0);
    assert_eq!(adj.neighbors_len(0), 0);
    assert!(adj.layer0_groups().is_empty());
    assert_eq!(adj.neighbor_at(3, 1), Some(42));
    assert!(adj.remove_neighbor(3, 7));
    assert!(!adj.remove_neighbor(5, 7));
    assert_eq!(adj.neighbors_iter(3), vec![42]);
}

#[test]
fn clearing_a_layer_leaves_the_others() {
    let mut adj = NodeAdj::default();
    assert!(adj.add_neighbor(0, 1, 12, M0));
    assert!(adj.add_neighbor(0, 2, 13, M0));
    assert!(adj.add_neighbor(1, 5, 0, M));
    adj.clear_layer(1);
    assert_eq!(adj.neighbors_len(1), 0);
    assert_eq!(adj.neighbors_iter(0), vec![1, 2]);
    adj.clear_layer(0);
    assert_eq!(adj.neighbors_len(0), 0);
    assert!(adj.layer0_groups().is_empty());
    adj.clear_layer(7);
    assert!(adj.add_neighbor(0, 3, 12, M0));
    assert_eq!(adj.layer0_groups().to_vec(), vec![(1, 0b10000)]);
}

#[test]
fn layer0_no_duplicates_after_double_add() {
    let mut adj = NodeAdj::default();
    assert!(adj.add_neighbor(0, 7, 7, M0));
    assert!(!adj.add_neighbor(0, 7, 7, M0));
    assert_eq!(adj.neighbors_len(0), 1);
    assert_eq!(adj.neighbor_at(0, 0), Some(7));
}

#[test]
fn adding_then_removing_restores_the_layer() {
    let mut adj = NodeAdj::default();
    for (n, s) in [(2u32, 2u32), (6, 6), (9, 9)] {
        assert!(adj.add_neighbor(0, n, s, M0));
    }
    assert!(adj.add_neighbor(1, 4, 0, M));
    let before0 = adj.neighbors_iter(0);
    let groups0 = adj.layer0_groups().to_vec();
    assert!(adj.add_neighbor(0, 5, 5, M0));
    assert_eq!(adj.neighbor_at(0, 1), Some(5));
    assert!(adj.remove_neighbor(0, 5));
    assert_eq!(adj.neighbors_iter(0), before0);
    assert_eq!(adj.layer0_groups().to_vec(), groups0);
    assert!(adj.add_neighbor(1, 1, 0, M));
    assert!(adj.remove_neighbor(1, 1));
    assert_eq!(adj.neighbors_iter(1), vec![4]);
}
