use genesis::cohomology::{
    benchmark_rank_by_gaussian_elimination, benchmark_xor_row_elimination, complex_fingerprint,
    CohomologyValidator, Z2Matrix, FINGERPRINT_SEED,
};
use genesis::rips::RipsComplex;
use genesis::signal::NodeId;

fn ids(n: u64) -> Vec<NodeId> {
    (0..n).map(|i| NodeId::try_new(i).unwrap()).collect()
}

fn complex(n: u64, edges: &[(usize, usize)]) -> RipsComplex {
    RipsComplex::from_accepted_edges(ids(n), &edges.to_vec())
}

fn xorshift(mut s: u64) -> u64 {
    s ^= s << 13;
    s ^= s >> 7;
    s ^= s << 17;
    s
}

#[test]
fn cohomology_h1_nonzero_for_loop() {
    let mut d1 = Z2Matrix::new(4, 4);
    d1.set(0, 0, true);
    d1.set(1, 0, true);
    d1.set(1, 1, true);
    d1.set(2, 1, true);
    d1.set(2, 2, true);
    d1.set(3, 2, true);
    d1.set(3, 3, true);
    d1.set(0, 3, true);

    let rank_d1 = d1.rank_by_gaussian_elimination();
    let n_edges = 4;
    let rank_ker_d1 = n_edges - rank_d1;
    let h1_dim = rank_ker_d1;

    assert_eq!(h1_dim, 1, "expected H¹=1 for a 4-cycle, got {}", h1_dim);
}

#[test]
fn rank_of_identity_and_duplicate_rows() {
    let mut m = Z2Matrix::new(3, 130);
    m.set(0, 0, true);
    m.set(1, 64, true);
    m.set(2, 129, true);
    assert_eq!(m.rank_by_gaussian_elimination(), 3);

    let mut d = Z2Matrix::new(3, 5);
    d.set(0, 1, true);
    d.set(0, 4, true);
    d.set(1, 1, true);
    d.set(1, 4, true);
    d.set(2, 2, true);
    assert_eq!(d.rank_by_gaussian_elimination(), 2);

    let mut z = Z2Matrix::new(2, 2);
    z.set(1, 1, true);
    z.set(1, 1, false);
    assert_eq!(z.rank_by_gaussian_elimination(), 0);
}

#[test]
fn h1_zero_without_edges() {
    let c = complex(3, &[]);
    assert!(CohomologyValidator::check_h1(&c));
}

#[test]
fn h1_zero_for_tree() {
    let c = complex(5, &[(0, 1), (1, 2), (1, 3), (3, 4)]);
    assert!(CohomologyValidator::check_h1(&c));
}

#[test]
fn h1_nonzero_for_unfilled_square() {
    let c = complex(4, &[(0, 1), (1, 2), (2, 3), (0, 3)]);
    assert_eq!(c.counts(), (4, 4, 0));
    assert!(!CohomologyValidator::check_h1(&c));
}

#[test]
fn h1_zero_for_filled_triangle() {
    let c = complex(3, &[(0, 1), (1, 2), (0, 2)]);
    assert_eq!(c.counts(), (3, 3, 1));
    assert!(CohomologyValidator::check_h1(&c));
}

#[test]
fn h1_zero_for_square_with_diagonal() {
    // Two triangles fill the square.
    let c = complex(4, &[(0, 1), (1, 2), (2, 3), (0, 3), (0, 2)]);
    assert_eq!(c.counts(), (4, 5, 2));
    assert!(CohomologyValidator::check_h1(&c));
}

#[test]
fn h1_nonzero_for_two_loops_one_filled() {
    // A filled triangle 0-1-2 and an empty square 2-3-4-5.
    let c = complex(6, &[(0, 1), (1, 2), (0, 2), (2, 3), (3, 4), (4, 5), (2, 5)]);
    assert!(!CohomologyValidator::check_h1(&c));
}

#[test]
fn fingerprint_of_empty_complex_is_seed() {
    let c = complex(4, &[]);
    assert_eq!(complex_fingerprint(&c), FINGERPRINT_SEED);
}

#[test]
fn h1_cache_invalidates_on_same_counts_with_different_topology() {
    let a = complex(4, &[(0, 1), (2, 3)]);
    let b = complex(4, &[(0, 2), (1, 3)]);
    assert_eq!(a.counts(), b.counts());
    assert_ne!(complex_fingerprint(&a), complex_fingerprint(&b));
}

#[test]
fn benchmark_rank_of_empty_matrix_is_zero() {
    assert_eq!(benchmark_rank_by_gaussian_elimination(0, 10, 1), 0);
    assert_eq!(benchmark_rank_by_gaussian_elimination(10, 0, 1), 0);
}

#[test]
fn benchmark_rank_matches_reference_elimination() {
    let rows = 6;
    let cols = 9;
    let seed = 0x1234_5678u64;
    // Rebuild the same matrix and compute its rank with a plain elimination.
    let mut state = seed ^ 0x9E37_79B9_7F4A_7C15;
    let mut m = vec![vec![false; cols]; rows];
    for r in 0..rows {
        for c in 0..cols {
            state = xorshift(state);
            m[r][c] = state & 1 != 0;
        }
    }
    let mut rank = 0;
    for c in 0..cols {
        if let Some(p) = (rank..rows).find(|&r| m[r][c]) {
            m.swap(p, rank);
            for r in 0..rows {
                if r != rank && m[r][c] {
                    for k in 0..cols {
                        m[r][k] ^= m[rank][k];
                    }
                }
            }
            rank += 1;
        }
    }
    assert_eq!(benchmark_rank_by_gaussian_elimination(rows, cols, seed), rank);
}

#[test]
fn benchmark_xor_even_iterations_restore_destination() {
    let seed = 42u64;
    let s0 = seed ^ 0x94D0_49BB_1331_11EB;
    let dst0 = xorshift(s0);
    let pivot0 = xorshift(dst0).rotate_left(11);
    assert_eq!(benchmark_xor_row_elimination(1, 2, seed), dst0);
    assert_eq!(benchmark_xor_row_elimination(1, 3, seed), dst0 ^ pivot0);
    assert_eq!(benchmark_xor_row_elimination(0, 3, seed), 0);
    assert_eq!(benchmark_xor_row_elimination(3, 0, seed), 0);
}


/// Full H¹ computation from the simplices, with the library's elimination.
fn full_h1_vanishes(c: &RipsComplex) -> bool {
    let verts = c.simplices_of_dim(0);
    let edges = c.simplices_of_dim(1);
    let tris = c.simplices_of_dim(2);
    let pos = |id: NodeId| verts.iter().position(|v| v[0] == id).unwrap();
    let mut d1 = Z2Matrix::new(verts.len(), edges.len());
    for (col, e) in edges.iter().enumerate() {
        d1.set(pos(e[0]), col, true);
        d1.set(pos(e[1]), col, true);
    }
    let r1 = d1.rank_by_gaussian_elimination();
    let mut d2 = Z2Matrix::new(edges.len(), tris.len());
    for (col, t) in tris.iter().enumerate() {
        for (row, e) in edges.iter().enumerate() {
            let sides = [(t[0], t[1]), (t[0], t[2]), (t[1], t[2])];
            if sides.iter().any(|&(a, b)| (e[0] == a && e[1] == b) || (e[0] == b && e[1] == a)) {
                d2.set(row, col, true);
            }
        }
    }
    let r2 = d2.rank_by_gaussian_elimination();
    edges.len() <= r1 + r2
}

#[test]
fn h1_check_matches_full_rank_computation_on_random_graphs() {
    let mut seed = 0xA5A5_5A5A_D3C1_9E37u64;
    for _ in 0..200 {
        seed = xorshift(seed);
        let n = 3 + (seed % 8) as usize;
        let mut cand = Vec::new();
        for u in 0..n {
            for v in (u + 1)..n {
                seed = xorshift(seed);
                if seed % 100 < 45 {
                    cand.push((u, v));
                }
            }
        }
        let c = complex(n as u64, &cand);
        assert_eq!(CohomologyValidator::check_h1(&c), full_h1_vanishes(&c));
    }
}

#[test]
fn repeated_checks_agree_across_cache_resets() {
    let square = complex(4, &[(0, 1), (1, 2), (2, 3), (0, 3)]);
    let path = complex(4, &[(0, 1), (1, 2), (2, 3)]);
    let first = CohomologyValidator::check_h1(&square);
    CohomologyValidator::invalidate_cache();
    assert_eq!(CohomologyValidator::check_h1(&square), first);
    assert!(!first);
    assert!(CohomologyValidator::check_h1(&path));
    CohomologyValidator::invalidate_cache();
    assert!(CohomologyValidator::check_h1(&path));
}
