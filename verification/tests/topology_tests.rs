use std::cmp::Ordering;

use genesis::hnsw::{radix_sort_node_ids, try_compact_node_id, CompactNodeId};
use genesis::lsh::CliffordHashTable;
use genesis::signal::NodeId;
use genesis::topological_intuition::{
    cmp_nodes, curvature_seeds, intersection_count, kind_rank, HypothesisKind, CURVATURE_SEED_LIMIT,
};

fn ids(raw: &[u64]) -> Vec<NodeId> {
    raw.iter().map(|&i| NodeId::try_new(i).unwrap()).collect()
}

#[test]
fn kind_rank_follows_declaration_order() {
    let kinds = [
        HypothesisKind::PersistentCycle,
        HypothesisKind::CycleClosure,
        HypothesisKind::FragileBridge,
        HypothesisKind::SpectralPartition,
        HypothesisKind::NegativeCurvatureRegion,
        HypothesisKind::HierarchicalHub,
    ];
    for (i, k) in kinds.iter().enumerate() {
        assert_eq!(kind_rank(*k), i);
    }
}

#[test]
fn cmp_nodes_is_lexicographic_by_identifier() {
    assert_eq!(cmp_nodes(&ids(&[1, 2, 3]), &ids(&[1, 2, 3])), Ordering::Equal);
    assert_eq!(cmp_nodes(&ids(&[1, 2]), &ids(&[1, 2, 3])), Ordering::Less);
    assert_eq!(cmp_nodes(&ids(&[1, 4]), &ids(&[1, 2, 3])), Ordering::Greater);
    assert_eq!(cmp_nodes(&ids(&[]), &ids(&[])), Ordering::Equal);
    assert_eq!(cmp_nodes(&ids(&[0]), &ids(&[])), Ordering::Greater);
}

#[test]
fn intersection_counts_shared_sorted_members() {
    assert_eq!(intersection_count(&ids(&[1, 3, 5, 7]), &ids(&[2, 3, 4, 7, 9])), 2);
    assert_eq!(intersection_count(&ids(&[]), &ids(&[1])), 0);
    assert_eq!(intersection_count(&ids(&[1, 2, 3]), &ids(&[1, 2, 3])), 3);
}

#[test]
fn curvature_seeds_keep_the_highest_degrees() {
    let offers: Vec<(NodeId, usize)> = (0..12u64).map(|i| (NodeId::try_new(i).unwrap(), (i % 5) as usize)).collect();
    let seeds = curvature_seeds(&offers);
    assert_eq!(seeds.len(), CURVATURE_SEED_LIMIT);
    let expected: Vec<(u64, usize)> = vec![(4, 4), (9, 4), (3, 3), (8, 3), (2, 2), (7, 2), (1, 1), (6, 1)];
    let got: Vec<(u64, usize)> = seeds.iter().map(|(id, d)| (id.get(), *d)).collect();
    assert_eq!(got, expected);
}

#[test]
fn curvature_seeds_of_a_small_graph_keep_all_nodes() {
    let offers = vec![
        (NodeId::try_new(5).unwrap(), 1),
        (NodeId::try_new(2).unwrap(), 3),
        (NodeId::try_new(1).unwrap(), 1),
    ];
    let seeds = curvature_seeds(&offers);
    let got: Vec<(u64, usize)> = seeds.iter().map(|(id, d)| (id.get(), *d)).collect();
    assert_eq!(got, vec![(2, 3), (1, 1), (5, 1)]);
    assert!(curvature_seeds(&[]).is_empty());
}

#[test]
fn compact_node_id_fits_in_32_bits() {
    let small = NodeId::try_new(7).unwrap();
    assert_eq!(CompactNodeId::try_from(small).unwrap().raw(), 7);
    assert_eq!(try_compact_node_id(small).map(|c| c.raw()), Some(7));
    let big = NodeId::try_new(1u64 << 33).unwrap();
    assert!(CompactNodeId::try_from(big).is_err());
    assert!(try_compact_node_id(big).is_none());
}

#[test]
fn lsh_inserted_node_is_candidate_for_its_own_buckets() {
    let mut h = CliffordHashTable::new();
    let a = NodeId::try_new(10).unwrap();
    let b = NodeId::try_new(3).unwrap();
    h.insert(a, [1, 2, 3, 4]);
    h.insert(b, [9, 9, 3, 9]);
    assert_eq!(h.candidates([1, 2, 3, 4]), vec![b, a]);
    assert_eq!(h.candidates([1, 0, 0, 0]), vec![a]);
    assert!(h.candidates([0, 0, 0, 0]).is_empty());
}

#[test]
fn lsh_candidates_have_no_duplicates_after_repeated_insert() {
    let mut h = CliffordHashTable::new();
    let a = NodeId::try_new(42).unwrap();
    for _ in 0..3 {
        h.insert(a, [7, 7, 7, 7]);
    }
    assert_eq!(h.candidates([7, 7, 7, 7]), vec![a]);
}

#[test]
fn lsh_candidates_are_sorted_union_of_buckets() {
    let mut h = CliffordHashTable::new();
    for i in 0..20u64 {
        let id = NodeId::try_new(100 - i).unwrap();
        h.insert(id, [(i % 2) as u32, (i % 3) as u32, (i % 5) as u32, 99]);
    }
    let got: Vec<u64> = h.candidates([0, 9, 9, 9]).iter().map(|n| n.get()).collect();
    let expected: Vec<u64> = (0..20u64).filter(|i| i % 2 == 0).map(|i| 100 - i).rev().collect();
    assert_eq!(got, expected);
    assert_eq!(h.candidates([5, 5, 5, 99]).len(), 20);
}

fn compact(raw: u64) -> CompactNodeId {
    CompactNodeId::try_from(NodeId::try_new(raw).unwrap()).unwrap()
}

#[test]
fn radix_sort_orders_by_identifier_and_keeps_ties_in_order() {
    let keys = [5u64, 1, 5, 300, 1, 65_537, 0x0100_0000, 255, 256, 0xFFFF_FFFF, 0];
    let mut index: Vec<(CompactNodeId, usize)> = keys.iter().enumerate().map(|(i, &k)| (compact(k), i)).collect();
    radix_sort_node_ids(&mut index);
    let got: Vec<(u32, usize)> = index.iter().map(|(c, i)| (c.raw(), *i)).collect();
    let mut expected: Vec<(u32, usize)> = keys.iter().enumerate().map(|(i, &k)| (k as u32, i)).collect();
    expected.sort_by_key(|&(k, _)| k);
    assert_eq!(got, expected);
    assert_eq!(got[1], (1, 1));
    assert_eq!(got[2], (1, 4));
}

#[test]
fn radix_sort_of_short_index_is_identity() {
    let mut empty: Vec<(CompactNodeId, usize)> = Vec::new();
    radix_sort_node_ids(&mut empty);
    assert!(empty.is_empty());
    let mut one = vec![(compact(9), 3usize)];
    radix_sort_node_ids(&mut one);
    assert_eq!(one[0].0.raw(), 9);
    assert_eq!(one[0].1, 3);
}
