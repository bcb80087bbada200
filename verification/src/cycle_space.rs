//! Z₂ linear algebra behind the H¹ checks.
//!
//! * The rank of a matrix is well defined: two reduced echelon forms of one
//!   row space have the same number of pivots (a rank-`r` matrix spans
//!   exactly `2^r` vectors).
//! * A set of edges in which every vertex has even degree contains an edge
//!   that closes a cycle; hence the incidence matrix ∂₁ of a forest has full
//!   column rank and H¹ of a forest vanishes.
//! * The incidence matrix of any graph has rank nodes − components.
//!
//! The first two show that the union-find short-circuit of the H¹ check
//! answers what the full elimination answers; the last one, that the
//! incremental H¹ state counts dim ker ∂₁ correctly.
use vstd::prelude::*;

use crate::cohomology::{
    closes_cycle, comp_labels, d1_model, edge_rows, h1_check, h1_ranks, lemma_comp_labels_len, pos_of,
};
use crate::incremental_cohomology::count_roots;
use crate::gf2::{dot, in_span, is_gf2_rank, lin_comb, reduced_echelon, same_row_space};
use crate::rips::{distinct_ids, Edge, RipsComplex};
use crate::signal::NodeId;

verus! {

// ============================================================================
// Parity of finite sums
// ============================================================================

/// Parity of the number of `j < n` with `f(j)`.
pub open spec fn par(f: spec_fn(int) -> bool, n: int) -> bool
    decreases n,
{
    if n <= 0 {
        false
    } else {
        par(f, n - 1) ^ f(n - 1)
    }
}

pub(crate) proof fn lemma_par_ext(f: spec_fn(int) -> bool, g: spec_fn(int) -> bool, n: int)
    requires
        forall|j: int| 0 <= j < n ==> #[trigger] f(j) == g(j),
    ensures
        par(f, n) == par(g, n),
    decreases n,
{
    if n > 0 {
        lemma_par_ext(f, g, n - 1);
    }
}

proof fn lemma_par_xor(f: spec_fn(int) -> bool, g: spec_fn(int) -> bool, h: spec_fn(int) -> bool, n: int)
    requires
        forall|j: int| 0 <= j < n ==> #[trigger] h(j) == (f(j) ^ g(j)),
    ensures
        par(h, n) == (par(f, n) ^ par(g, n)),
    decreases n,
{
    if n > 0 {
        lemma_par_xor(f, g, h, n - 1);
        let a = par(f, n - 1);
        let b = par(g, n - 1);
        let x = f(n - 1);
        let y = g(n - 1);
        assert((a ^ b) ^ (x ^ y) == ((a ^ x) ^ (b ^ y))) by (bit_vector);
    }
}

proof fn lemma_par_and(b: bool, f: spec_fn(int) -> bool, h: spec_fn(int) -> bool, n: int)
    requires
        forall|j: int| 0 <= j < n ==> #[trigger] h(j) == (b && f(j)),
    ensures
        par(h, n) == (b && par(f, n)),
    decreases n,
{
    if n > 0 {
        lemma_par_and(b, f, h, n - 1);
        let a = par(f, n - 1);
        let x = f(n - 1);
        assert(((b && a) ^ (b && x)) == (b && (a ^ x))) by (bit_vector);
    }
}

proof fn lemma_par_none(f: spec_fn(int) -> bool, n: int)
    requires
        forall|j: int| 0 <= j < n ==> !#[trigger] f(j),
    ensures
        !par(f, n),
    decreases n,
{
    if n > 0 {
        lemma_par_none(f, n - 1);
    }
}

/// Terms past `k` that all vanish do not change the parity.
proof fn lemma_par_prefix(f: spec_fn(int) -> bool, k: int, n: int)
    requires
        0 <= k <= n,
        forall|j: int| k <= j < n ==> !#[trigger] f(j),
    ensures
        par(f, n) == par(f, k),
    decreases n - k,
{
    if n > k {
        lemma_par_prefix(f, k, n - 1);
    }
}

/// Only positions `p` and `q` (distinct) may hold: the parity is their XOR.
proof fn lemma_par_two(f: spec_fn(int) -> bool, n: int, p: int, q: int)
    requires
        0 <= p < n,
        0 <= q < n,
        p != q,
        forall|j: int| 0 <= j < n && #[trigger] f(j) ==> j == p || j == q,
    ensures
        par(f, n) == (f(p) ^ f(q)),
    decreases n,
{
    if n - 1 == p {
        lemma_par_one(f, n - 1, q);
    } else if n - 1 == q {
        lemma_par_one(f, n - 1, p);
    } else {
        lemma_par_two(f, n - 1, p, q);
    }
}

/// Only position `p` may hold: the parity is its value.
proof fn lemma_par_one(f: spec_fn(int) -> bool, n: int, p: int)
    requires
        0 <= p < n,
        forall|j: int| 0 <= j < n && #[trigger] f(j) ==> j == p,
    ensures
        par(f, n) == f(p),
    decreases n,
{
    if n - 1 == p {
        lemma_par_none(f, n - 1);
    } else {
        lemma_par_one(f, n - 1, p);
    }
}

/// The order of a double parity sum does not matter.
proof fn lemma_par_swap(f: spec_fn(int, int) -> bool, n: int, m: int)
    requires
        m >= 0,
    ensures
        par(|i: int| par(|j: int| f(i, j), m), n) == par(|j: int| par(|i: int| f(i, j), n), m),
    decreases n,
{
    let lhs = |i: int| par(|j: int| f(i, j), m);
    let rhs = |j: int| par(|i: int| f(i, j), n);
    if n <= 0 {
        assert forall|j: int| 0 <= j < m implies !#[trigger] rhs(j) by {}
        lemma_par_none(rhs, m);
    } else {
        lemma_par_swap(f, n - 1, m);
        let g = |j: int| par(|i: int| f(i, j), n - 1);
        let r = |j: int| f(n - 1, j);
        assert forall|j: int| 0 <= j < m implies #[trigger] rhs(j) == (g(j) ^ r(j)) by {}
        lemma_par_xor(g, r, rhs, m);
        assert(par(lhs, n) == (par(lhs, n - 1) ^ lhs(n - 1)));
        assert(lhs(n - 1) == par(|j: int| f(n - 1, j), m));
        lemma_par_ext(|j: int| f(n - 1, j), r, m);
    }
}

// ============================================================================
// Row vectors against a column selector
// ============================================================================

/// Parity of `row · x` over the first `w` columns.
pub open spec fn row_dot(row: Seq<bool>, x: Seq<bool>, w: int) -> bool {
    par(|j: int| row[j] && x[j], w)
}

pub(crate) proof fn lemma_dot_is_par(c: Seq<bool>, m: Seq<Seq<bool>>, col: int, k: int)
    ensures
        dot(c, m, col, k) == par(|i: int| c[i] && m[i][col], k),
    decreases k,
{
    if k > 0 {
        lemma_dot_is_par(c, m, col, k - 1);
    }
}

/// A combination of rows dotted with `x` is the combination of the rows' dots.
proof fn lemma_lin_comb_dot(c: Seq<bool>, m: Seq<Seq<bool>>, x: Seq<bool>, w: nat)
    requires
        c.len() == m.len(),
    ensures
        row_dot(lin_comb(c, m, w), x, w as int) == par(|i: int| c[i] && row_dot(m[i], x, w as int), m.len() as int),
{
    let n = m.len() as int;
    let lc = lin_comb(c, m, w);
    let f = |i: int, j: int| c[i] && m[i][j] && x[j];
    // Column-major: sum over columns of x[j] && dot(c, m, j, n).
    let colw = |j: int| par(|i: int| f(i, j), n);
    assert forall|j: int| 0 <= j < w implies (lc[j] && x[j]) == #[trigger] colw(j) by {
        lemma_dot_is_par(c, m, j, n);
        let inner = |i: int| c[i] && m[i][j];
        lemma_par_and(x[j], inner, |i: int| f(i, j), n);
    }
    lemma_par_ext(|j: int| lc[j] && x[j], colw, w as int);
    lemma_par_swap(f, n, w as int);
    let roww = |i: int| par(|j: int| f(i, j), w as int);
    assert forall|i: int| 0 <= i < n implies #[trigger] roww(i) == (c[i] && row_dot(m[i], x, w as int)) by {
        lemma_par_and(c[i], |j: int| m[i][j] && x[j], |j: int| f(i, j), w as int);
    }
    lemma_par_ext(roww, |i: int| c[i] && row_dot(m[i], x, w as int), n);
}

// ============================================================================
// A nonzero null vector of a rank-deficient echelon form
// ============================================================================

proof fn lemma_free_column_from(piv: Seq<int>, r: nat, w: nat, k: int) -> (c0: int)
    requires
        piv.len() == r,
        r < w,
        forall|t: int| 0 <= t < r ==> 0 <= #[trigger] piv[t] < w,
        forall|t1: int, t2: int| 0 <= t1 < t2 < r ==> piv[t1] < piv[t2],
        0 <= k <= r,
        forall|t: int| 0 <= t < k ==> #[trigger] piv[t] == t,
    ensures
        0 <= c0 < w,
        forall|t: int| 0 <= t < r ==> #[trigger] piv[t] != c0,
    decreases r - k,
{
    if k == r {
        r as int
    } else if piv[k] != k {
        if k > 0 {
            assert(piv[k - 1] == k - 1);
            assert(piv[k - 1] < piv[k]);
        }
        assert forall|t: int| 0 <= t < r implies #[trigger] piv[t] != k by {
            if t > k {
                assert(piv[k] < piv[t]);
            }
        }
        k
    } else {
        lemma_free_column_from(piv, r, w, k + 1)
    }
}

/// The vector with a one at the free column `c0` and, at each pivot column,
/// the entry of that pivot's row in column `c0`.
pub open spec fn null_vector(e: Seq<Seq<bool>>, w: nat, r: nat, piv: Seq<int>, c0: int) -> Seq<bool> {
    Seq::new(w, |j: int| j == c0 || exists|k: int| 0 <= k < r && #[trigger] piv[k] == j && e[k][c0])
}

/// An echelon form with fewer pivots than columns has a nonzero vector that
/// every one of its rows annihilates.
proof fn lemma_echelon_null_vector(e: Seq<Seq<bool>>, w: nat, r: nat, piv: Seq<int>) -> (x: Seq<bool>)
    requires
        reduced_echelon(e, w, r, piv),
        r < w,
    ensures
        x.len() == w,
        exists|j: int| 0 <= j < w && #[trigger] x[j],
        forall|i: int| 0 <= i < e.len() ==> !row_dot(#[trigger] e[i], x, w as int),
{
    let c0 = lemma_free_column_from(piv, r, w, 0);
    let x = null_vector(e, w, r, piv, c0);
    assert(x[c0]);
    assert forall|i: int| 0 <= i < e.len() implies !row_dot(#[trigger] e[i], x, w as int) by {
        let f = |j: int| e[i][j] && x[j];
        if i >= r {
            assert forall|j: int| 0 <= j < w implies !#[trigger] f(j) by {
                assert(!e[i][j]);
            }
            lemma_par_none(f, w as int);
        } else {
            let p = piv[i];
            assert(e[i][p]);
            assert forall|j: int| 0 <= j < w && #[trigger] f(j) implies j == c0 || j == p by {
                if j != c0 {
                    let k = choose|k: int| 0 <= k < r && #[trigger] piv[k] == j && e[k][c0];
                    assert(e[i][piv[k]] == (i == k));
                }
            }
            assert(x[p] == e[i][c0]) by {
                if x[p] {
                    if p != c0 {
                        let k = choose|k: int| 0 <= k < r && #[trigger] piv[k] == p && e[k][c0];
                        if k < i {
                            assert(piv[k] < piv[i]);
                        } else if k > i {
                            assert(piv[i] < piv[k]);
                        }
                    }
                } else {
                    assert(!(0 <= i < r && piv[i] == p && e[i][c0]));
                }
            }
            lemma_par_two(f, w as int, c0, p);
        }
    }
    x
}

/// A matrix of Z₂ rank below its width has a nonzero vector that every row
/// annihilates.
proof fn lemma_rank_deficient_null_vector(m: Seq<Seq<bool>>, w: nat, r: nat) -> (x: Seq<bool>)
    requires
        is_gf2_rank(m, w, r),
        r < w,
    ensures
        x.len() == w,
        exists|j: int| 0 <= j < w && #[trigger] x[j],
        forall|i: int| 0 <= i < m.len() ==> !row_dot(#[trigger] m[i], x, w as int),
{
    let (e, piv) = choose|e: Seq<Seq<bool>>, piv: Seq<int>|
        #![trigger reduced_echelon(e, w, r, piv)]
        e.len() == m.len() && crate::gf2::same_row_space(m, e, w) && reduced_echelon(e, w, r, piv);
    let x = lemma_echelon_null_vector(e, w, r, piv);
    assert forall|i: int| 0 <= i < m.len() implies !row_dot(#[trigger] m[i], x, w as int) by {
        assert(in_span(m[i], e, w));
        let c = choose|c: Seq<bool>| c.len() == e.len() && #[trigger] lin_comb(c, e, w) == m[i];
        lemma_lin_comb_dot(c, e, x, w);
        let g = |k: int| c[k] && row_dot(e[k], x, w as int);
        assert forall|k: int| 0 <= k < e.len() implies !#[trigger] g(k) by {
            assert(!row_dot(e[k], x, w as int));
        }
        lemma_par_none(g, e.len() as int);
    }
    x
}

// ============================================================================
// Even-degree edge sets close a cycle
// ============================================================================

/// Every pair names two vertices below `n`.
pub open spec fn pairs_within(n: nat, pairs: Seq<(int, int)>) -> bool {
    forall|k: int| 0 <= k < pairs.len() ==> 0 <= (#[trigger] pairs[k]).0 < n && 0 <= pairs[k].1 < n
}

/// After the merges of `pairs`, both ends of every pair carry the same label.
proof fn lemma_comp_labels_joined(n: nat, pairs: Seq<(int, int)>, k: int)
    requires
        pairs_within(n, pairs),
        0 <= k < pairs.len(),
    ensures
        comp_labels(n, pairs)[pairs[k].0] == comp_labels(n, pairs)[pairs[k].1],
    decreases pairs.len(),
{
    let init = pairs.drop_last();
    lemma_comp_labels_len(n, init);
    let lab = comp_labels(n, init);
    if k < pairs.len() - 1 {
        assert(init[k] == pairs[k]);
        lemma_comp_labels_joined(n, init, k);
    }
}

/// The last selected position of a nonzero vector.
proof fn lemma_last_true(x: Seq<bool>, w: int) -> (j: int)
    requires
        exists|t: int| 0 <= t < w && #[trigger] x[t],
    ensures
        0 <= j < w,
        x[j],
        forall|t: int| j < t < w ==> !#[trigger] x[t],
    decreases w,
{
    if x[w - 1] {
        w - 1
    } else {
        assert(exists|t: int| 0 <= t < w - 1 && #[trigger] x[t]) by {
            let t = choose|t: int| 0 <= t < w && #[trigger] x[t];
            assert(t != w - 1);
        }
        lemma_last_true(x, w - 1)
    }
}

/// The position of an endpoint among distinct vertex identifiers.
proof fn lemma_pos_of(ids: Seq<NodeId>, x: NodeId)
    requires
        distinct_ids(ids),
        ids.contains(x),
    ensures
        0 <= pos_of(ids, x) < ids.len(),
        ids[pos_of(ids, x)] == x,
        forall|i: int| 0 <= i < ids.len() ==> (#[trigger] ids[i] == x) == (i == pos_of(ids, x)),
{
    let p = pos_of(ids, x);
    assert forall|i: int| 0 <= i < ids.len() implies (#[trigger] ids[i] == x) == (i == p) by {
        if ids[i] == x && i != p {
            if i < p {
                assert(ids[i].raw() != ids[p].raw());
            } else {
                assert(ids[p].raw() != ids[i].raw());
            }
        }
    }
}

/// Edges between distinct listed vertices.
pub open spec fn simple_edges(ids: Seq<NodeId>, es: Seq<Edge>) -> bool {
    forall|i: int|
        0 <= i < es.len() ==> (#[trigger] es[i]).u.raw() < es[i].v.raw() && ids.contains(es[i].u) && ids.contains(
            es[i].v,
        )
}

/// In a graph whose edges, in order, never join two already connected
/// vertices (a forest), the incidence matrix ∂₁ has full column rank: its Z₂
/// rank is at least the number of edges.
pub proof fn lemma_forest_incidence_full_rank(ids: Seq<NodeId>, es: Seq<Edge>, r: nat)
    requires
        distinct_ids(ids),
        simple_edges(ids, es),
        !closes_cycle(ids.len(), edge_rows(ids, es)),
        is_gf2_rank(d1_model(ids, es), es.len(), r),
    ensures
        r >= es.len(),
{
    if r < es.len() {
        let n = ids.len();
        let w = es.len();
        let m = d1_model(ids, es);
        let pairs = edge_rows(ids, es);
        let x = lemma_rank_deficient_null_vector(m, w, r);
        let js = lemma_last_true(x, w as int);
        // Incidence: row i of column col is set exactly at the two endpoints.
        assert forall|col: int| 0 <= col < w implies {
            &&& 0 <= (#[trigger] pairs[col]).0 < n
            &&& 0 <= pairs[col].1 < n
            &&& pairs[col].0 != pairs[col].1
            &&& forall|i: int| 0 <= i < n ==> m[i][col] == (i == pairs[col].0 || i == pairs[col].1)
        } by {
            let e = es[col];
            lemma_pos_of(ids, e.u);
            lemma_pos_of(ids, e.v);
            assert(e.u != e.v);
        }
        assert(pairs_within(n, pairs));
        let pre = pairs.take(js);
        assert(pairs_within(n, pre)) by {
            assert forall|k: int| 0 <= k < pre.len() implies 0 <= (#[trigger] pre[k]).0 < n && 0 <= pre[k].1 < n by {
                assert(pre[k] == pairs[k]);
            }
        }
        lemma_comp_labels_len(n, pre);
        let lab = comp_labels(n, pre);
        let a = pairs[js].0;
        let b = pairs[js].1;
        let la = lab[a];
        // Degree parity below `js` is the incidence with column `js`.
        let deg = |i: int| par(|col: int| m[i][col] && x[col], js);
        assert forall|i: int| 0 <= i < n implies #[trigger] deg(i) == (i == a || i == b) by {
            let f = |col: int| m[i][col] && x[col];
            assert(!row_dot(m[i], x, w as int));
            assert forall|t: int| js + 1 <= t < w implies !#[trigger] f(t) by {
                assert(!x[t]);
            }
            lemma_par_prefix(f, js + 1, w as int);
            assert(par(f, js + 1) == (par(f, js) ^ f(js)));
        }
        // Parity of the degrees over the class of `a`, two ways.
        let q = |i: int| lab[i] == la && deg(i);
        assert forall|i: int| 0 <= i < n && #[trigger] q(i) implies i == a || i == b by {}
        lemma_par_two(q, n as int, a, b);
        let f2 = |i: int, col: int| lab[i] == la && m[i][col] && x[col];
        let rows = |i: int| par(|col: int| f2(i, col), js);
        assert forall|i: int| 0 <= i < n implies #[trigger] q(i) == rows(i) by {
            lemma_par_and(lab[i] == la, |col: int| m[i][col] && x[col], |col: int| f2(i, col), js);
        }
        lemma_par_ext(q, rows, n as int);
        lemma_par_swap(f2, n as int, js);
        let cols = |col: int| par(|i: int| f2(i, col), n as int);
        assert forall|col: int| 0 <= col < js implies !#[trigger] cols(col) by {
            let p = pairs[col].0;
            let t = pairs[col].1;
            assert(pre[col] == pairs[col]);
            lemma_comp_labels_joined(n, pre, col);
            let g = |i: int| f2(i, col);
            assert forall|i: int| 0 <= i < n && #[trigger] g(i) implies i == p || i == t by {}
            lemma_par_two(g, n as int, p, t);
        }
        lemma_par_none(cols, js);
        assert(lab[b] == la);
        assert(comp_labels(n, pairs.take(js))[pairs[js].0] == comp_labels(n, pairs.take(js))[pairs[js].1]);
        assert(closes_cycle(n, pairs));
    }
}

/// When the 1-skeleton of a complex has no edge or is a forest, the H¹ check
/// (which then answers without elimination) agrees with the full rank
/// computation: whatever ranks of ∂₁ and ∂₂ it finds, H¹ vanishes.
pub proof fn lemma_check_h1_forest_agrees_with_ranks(c: &RipsComplex, vanishes: bool, r1: nat, r2: nat, full: bool)
    requires
        c.wf(),
        h1_check(c, vanishes),
        h1_ranks(c, r1, r2, full),
        c.edges().len() == 0 || !closes_cycle(c.vertices().len(), edge_rows(c.vertices(), c.edges())),
    ensures
        vanishes == full,
        vanishes,
{
    if c.edges().len() > 0 {
        lemma_forest_incidence_full_rank(c.vertices(), c.edges(), r1);
    }
}

// ============================================================================
// The Z₂ rank is well defined
// ============================================================================

/// `2^k`.
pub open spec fn two_pow(k: nat) -> nat
    decreases k,
{
    if k == 0 {
        1
    } else {
        2 * two_pow((k - 1) as nat)
    }
}

pub(crate) proof fn lemma_two_pow_strict(a: nat, b: nat)
    requires
        a < b,
    ensures
        two_pow(a) < two_pow(b),
    decreases b,
{
    if b - 1 > a {
        lemma_two_pow_strict(a, (b - 1) as nat);
    }
    lemma_two_pow_pos(a);
}

proof fn lemma_two_pow_pos(a: nat)
    ensures
        two_pow(a) >= 1,
    decreases a,
{
    if a > 0 {
        lemma_two_pow_pos((a - 1) as nat);
    }
}

/// All boolean sequences of length `k`.
pub open spec fn bool_seqs(k: nat) -> Set<Seq<bool>> {
    Set::new(|s: Seq<bool>| s.len() == k)
}

pub(crate) proof fn lemma_bool_seqs_len(k: nat)
    ensures
        bool_seqs(k).finite(),
        bool_seqs(k).len() == two_pow(k),
    decreases k,
{
    if k == 0 {
        assert forall|x: Seq<bool>| #[trigger] bool_seqs(0).contains(x) implies x == Seq::<bool>::empty() by {
            assert(x =~= Seq::<bool>::empty());
        }
        assert(bool_seqs(0) =~= Set::<Seq<bool>>::empty().insert(Seq::<bool>::empty()));
    } else {
        let prev = bool_seqs((k - 1) as nat);
        lemma_bool_seqs_len((k - 1) as nat);
        let f0 = |s: Seq<bool>| s.push(false);
        let f1 = |s: Seq<bool>| s.push(true);
        let a = prev.map(f0);
        let b = prev.map(f1);
        assert(vstd::relations::injective_on(f0, prev)) by {
            assert forall|x: Seq<bool>, y: Seq<bool>| prev.contains(x) && prev.contains(y) && #[trigger] f0(x)
                == #[trigger] f0(y) implies x == y by {
                assert(x =~= f0(x).drop_last());
                assert(y =~= f0(y).drop_last());
            }
        }
        assert(vstd::relations::injective_on(f1, prev)) by {
            assert forall|x: Seq<bool>, y: Seq<bool>| prev.contains(x) && prev.contains(y) && #[trigger] f1(x)
                == #[trigger] f1(y) implies x == y by {
                assert(x =~= f1(x).drop_last());
                assert(y =~= f1(y).drop_last());
            }
        }
        vstd::set_lib::lemma_map_size(prev, a, f0);
        vstd::set_lib::lemma_map_size(prev, b, f1);
        assert(a.disjoint(b)) by {
            assert forall|s: Seq<bool>| a.contains(s) implies !b.contains(s) by {
                let x = choose|x: Seq<bool>| prev.contains(x) && f0(x) == s;
                if b.contains(s) {
                    let y = choose|y: Seq<bool>| prev.contains(y) && f1(y) == s;
                    assert(f0(x).last() != f1(y).last());
                }
            }
        }
        assert(bool_seqs(k) =~= a + b) by {
            assert forall|s: Seq<bool>| #[trigger] bool_seqs(k).contains(s) implies (a + b).contains(s) by {
                let x = s.drop_last();
                assert(prev.contains(x));
                if s.last() {
                    assert(s =~= f1(x));
                } else {
                    assert(s =~= f0(x));
                }
            }
        }
        vstd::set_lib::lemma_set_disjoint_lens(a, b);
    }
}

/// `sel` padded with `false` to length `n`.
pub open spec fn pad(sel: Seq<bool>, n: nat) -> Seq<bool> {
    Seq::new(n, |i: int| i < sel.len() && sel[i])
}

/// A combination of combinations of the rows of `b` is a combination of the
/// rows of `b`.
pub(crate) proof fn lemma_span_trans(c: Seq<bool>, a: Seq<Seq<bool>>, b: Seq<Seq<bool>>, w: nat)
    requires
        c.len() == a.len(),
        forall|i: int| 0 <= i < a.len() ==> in_span(#[trigger] a[i], b, w),
    ensures
        in_span(lin_comb(c, a, w), b, w),
{
    let na = a.len() as int;
    let nb = b.len() as int;
    let d = |i: int| choose|d: Seq<bool>| d.len() == b.len() && #[trigger] lin_comb(d, b, w) == a[i];
    assert forall|i: int| 0 <= i < na implies (#[trigger] d(i)).len() == b.len() && lin_comb(d(i), b, w) == a[i] by {
        assert(in_span(a[i], b, w));
    }
    let c2 = Seq::new(b.len(), |j: int| par(|i: int| c[i] && d(i)[j], na));
    let v = lin_comb(c, a, w);
    assert forall|col: int| 0 <= col < w implies #[trigger] lin_comb(c2, b, w)[col] == v[col] by {
        let f = |i: int, j: int| c[i] && d(i)[j] && b[j][col];
        lemma_dot_is_par(c, a, col, na);
        lemma_dot_is_par(c2, b, col, nb);
        // v[col] = par_i (c[i] && a[i][col]) = par_i par_j f(i, j)
        let rows = |i: int| par(|j: int| f(i, j), nb);
        assert forall|i: int| 0 <= i < na implies #[trigger] rows(i) == (c[i] && a[i][col]) by {
            lemma_dot_is_par(d(i), b, col, nb);
            assert(a[i][col] == lin_comb(d(i), b, w)[col]);
            lemma_par_and(c[i], |j: int| d(i)[j] && b[j][col], |j: int| f(i, j), nb);
        }
        lemma_par_ext(rows, |i: int| c[i] && a[i][col], na);
        lemma_par_swap(f, na, nb);
        let cols = |j: int| par(|i: int| f(i, j), na);
        assert forall|j: int| 0 <= j < nb implies #[trigger] cols(j) == (c2[j] && b[j][col]) by {
            lemma_par_and(b[j][col], |i: int| c[i] && d(i)[j], |i: int| f(i, j), na);
        }
        lemma_par_ext(cols, |j: int| c2[j] && b[j][col], nb);
    }
    assert(lin_comb(c2, b, w) =~= v);
}

/// In a reduced echelon form, combining the pivot rows selected by `sel`
/// gives `sel[r]` in the pivot column of row `r`.
pub(crate) proof fn lemma_echelon_comb_at_pivot(e: Seq<Seq<bool>>, w: nat, k: nat, piv: Seq<int>, sel: Seq<bool>, r: int)
    requires
        reduced_echelon(e, w, k, piv),
        sel.len() == k,
        0 <= r < k,
    ensures
        lin_comb(pad(sel, e.len()), e, w)[piv[r]] == sel[r],
{
    let c = pad(sel, e.len());
    let col = piv[r];
    lemma_dot_is_par(c, e, col, e.len() as int);
    let f = |i: int| c[i] && e[i][col];
    assert forall|i: int| 0 <= i < e.len() && #[trigger] f(i) implies i == r by {
        assert(e[i][piv[r]] == (i == r));
    }
    lemma_par_one(f, e.len() as int, r);
}

/// Dropping the selection of zero rows does not change a combination.
pub(crate) proof fn lemma_comb_zero_rows(e: Seq<Seq<bool>>, w: nat, k: nat, piv: Seq<int>, d: Seq<bool>)
    requires
        reduced_echelon(e, w, k, piv),
        d.len() == e.len(),
    ensures
        lin_comb(pad(d.take(k as int), e.len()), e, w) == lin_comb(d, e, w),
{
    let c = pad(d.take(k as int), e.len());
    assert forall|col: int| 0 <= col < w implies #[trigger] lin_comb(c, e, w)[col] == lin_comb(d, e, w)[col] by {
        lemma_dot_is_par(c, e, col, e.len() as int);
        lemma_dot_is_par(d, e, col, e.len() as int);
        assert forall|i: int| 0 <= i < e.len() implies (c[i] && e[i][col]) == (d[i] && e[i][col]) by {
            if i >= k {
                assert(!e[i][col]);
            }
        }
        lemma_par_ext(|i: int| c[i] && e[i][col], |i: int| d[i] && e[i][col], e.len() as int);
    }
    assert(lin_comb(c, e, w) =~= lin_comb(d, e, w));
}

proof fn lemma_rank_le(m: Seq<Seq<bool>>, w: nat, k1: nat, k2: nat)
    requires
        is_gf2_rank(m, w, k1),
        is_gf2_rank(m, w, k2),
    ensures
        k1 <= k2,
{
    let (e1, p1) = choose|e: Seq<Seq<bool>>, piv: Seq<int>|
        #![trigger reduced_echelon(e, w, k1, piv)]
        e.len() == m.len() && same_row_space(m, e, w) && reduced_echelon(e, w, k1, piv);
    let (e2, p2) = choose|e: Seq<Seq<bool>>, piv: Seq<int>|
        #![trigger reduced_echelon(e, w, k2, piv)]
        e.len() == m.len() && same_row_space(m, e, w) && reduced_echelon(e, w, k2, piv);
    let f = |sel: Seq<bool>| lin_comb(pad(sel, e1.len()), e1, w);
    let g = |d: Seq<bool>| lin_comb(pad(d, e2.len()), e2, w);
    let dom1 = bool_seqs(k1);
    let dom2 = bool_seqs(k2);
    lemma_bool_seqs_len(k1);
    lemma_bool_seqs_len(k2);
    assert(vstd::relations::injective_on(f, dom1)) by {
        assert forall|x: Seq<bool>, y: Seq<bool>| dom1.contains(x) && dom1.contains(y) && #[trigger] f(x) == #[trigger] f(
            y,
        ) implies x == y by {
            assert forall|r: int| 0 <= r < k1 implies x[r] == y[r] by {
                lemma_echelon_comb_at_pivot(e1, w, k1, p1, x, r);
                lemma_echelon_comb_at_pivot(e1, w, k1, p1, y, r);
            }
            assert(x =~= y);
        }
    }
    let img1 = dom1.map(f);
    let img2 = dom2.map(g);
    vstd::set_lib::lemma_map_size(dom1, img1, f);
    vstd::set_lib::lemma_map_size_bound(dom2, img2, g);
    assert(img1.subset_of(img2)) by {
        assert forall|v: Seq<bool>| img1.contains(v) implies img2.contains(v) by {
            let sel = choose|sel: Seq<bool>| dom1.contains(sel) && f(sel) == v;
            let c = pad(sel, e1.len());
            assert forall|i: int| 0 <= i < e1.len() implies in_span(#[trigger] e1[i], m, w) by {}
            lemma_span_trans(c, e1, m, w);
            let c2 = choose|c2: Seq<bool>| c2.len() == m.len() && #[trigger] lin_comb(c2, m, w) == v;
            assert forall|i: int| 0 <= i < m.len() implies in_span(#[trigger] m[i], e2, w) by {}
            lemma_span_trans(c2, m, e2, w);
            let d = choose|d: Seq<bool>| d.len() == e2.len() && #[trigger] lin_comb(d, e2, w) == v;
            lemma_comb_zero_rows(e2, w, k2, p2, d);
            assert(dom2.contains(d.take(k2 as int)));
            assert(g(d.take(k2 as int)) == v);
        }
    }
    vstd::set_lib::lemma_len_subset(img1, img2);
    if k1 > k2 {
        lemma_two_pow_strict(k2, k1);
    }
}

/// The Z₂ rank of a matrix is well defined: any two reduced echelon forms of
/// its row space have the same number of pivots.
pub proof fn lemma_gf2_rank_unique(m: Seq<Seq<bool>>, w: nat, k1: nat, k2: nat)
    requires
        is_gf2_rank(m, w, k1),
        is_gf2_rank(m, w, k2),
    ensures
        k1 == k2,
{
    lemma_rank_le(m, w, k1, k2);
    lemma_rank_le(m, w, k2, k1);
}

/// The H¹ check agrees with the full rank computation on every complex:
/// whatever Z₂ ranks of ∂₁ and ∂₂ the elimination finds, H¹ vanishes by
/// them exactly when the check answers that it does.
pub proof fn lemma_check_h1_agrees_with_full_computation(
    c: &RipsComplex,
    vanishes: bool,
    r1: nat,
    r2: nat,
    full: bool,
)
    requires
        c.wf(),
        h1_check(c, vanishes),
        h1_ranks(c, r1, r2, full),
    ensures
        vanishes == full,
{
    if c.edges().len() == 0 || !closes_cycle(c.vertices().len(), edge_rows(c.vertices(), c.edges())) {
        lemma_check_h1_forest_agrees_with_ranks(c, vanishes, r1, r2, full);
    } else {
        let (q1, q2) = choose|q1: nat, q2: nat| h1_ranks(c, q1, q2, vanishes);
        lemma_gf2_rank_unique(d1_model(c.vertices(), c.edges()), c.edges().len(), q1, r1);
        lemma_gf2_rank_unique(crate::cohomology::d2_model(c.edges(), c.triangles()), c.triangles().len(), q2, r2);
    }
}

/// The vectors spanned by the rows of `m`.
pub open spec fn span_set(m: Seq<Seq<bool>>, w: nat) -> Set<Seq<bool>> {
    Set::new(|v: Seq<bool>| in_span(v, m, w))
}

/// A matrix of Z₂ rank `r` spans exactly `2^r` vectors.
pub(crate) proof fn lemma_rank_span_size(m: Seq<Seq<bool>>, w: nat, r: nat)
    requires
        is_gf2_rank(m, w, r),
    ensures
        span_set(m, w).finite(),
        span_set(m, w).len() == two_pow(r),
{
    let (e, p) = choose|e: Seq<Seq<bool>>, piv: Seq<int>|
        #![trigger reduced_echelon(e, w, r, piv)]
        e.len() == m.len() && same_row_space(m, e, w) && reduced_echelon(e, w, r, piv);
    let g = |sel: Seq<bool>| lin_comb(pad(sel, e.len()), e, w);
    let dom = bool_seqs(r);
    lemma_bool_seqs_len(r);
    assert(vstd::relations::injective_on(g, dom)) by {
        assert forall|x: Seq<bool>, y: Seq<bool>| dom.contains(x) && dom.contains(y) && #[trigger] g(x) == #[trigger] g(
            y,
        ) implies x == y by {
            assert forall|k: int| 0 <= k < r implies x[k] == y[k] by {
                lemma_echelon_comb_at_pivot(e, w, r, p, x, k);
                lemma_echelon_comb_at_pivot(e, w, r, p, y, k);
            }
            assert(x =~= y);
        }
    }
    let img = dom.map(g);
    vstd::set_lib::lemma_map_size(dom, img, g);
    assert(img =~= span_set(m, w)) by {
        assert forall|v: Seq<bool>| img.contains(v) implies #[trigger] span_set(m, w).contains(v) by {
            let sel = choose|sel: Seq<bool>| dom.contains(sel) && g(sel) == v;
            assert forall|i: int| 0 <= i < e.len() implies in_span(#[trigger] e[i], m, w) by {}
            lemma_span_trans(pad(sel, e.len()), e, m, w);
        }
        assert forall|v: Seq<bool>| #[trigger] span_set(m, w).contains(v) implies img.contains(v) by {
            let c = choose|c: Seq<bool>| c.len() == m.len() && #[trigger] lin_comb(c, m, w) == v;
            assert forall|i: int| 0 <= i < m.len() implies in_span(#[trigger] m[i], e, w) by {}
            lemma_span_trans(c, m, e, w);
            let d = choose|d: Seq<bool>| d.len() == e.len() && #[trigger] lin_comb(d, e, w) == v;
            lemma_comb_zero_rows(e, w, r, p, d);
            assert(dom.contains(d.take(r as int)));
            assert(g(d.take(r as int)) == v);
        }
    }
}

/// A parity sum reads only the selector entries and rows below its bound.
pub(crate) proof fn lemma_dot_prefix(
    c1: Seq<bool>,
    m1: Seq<Seq<bool>>,
    c2: Seq<bool>,
    m2: Seq<Seq<bool>>,
    col: int,
    k: int,
)
    requires
        forall|i: int| 0 <= i < k ==> c1[i] == c2[i] && m1[i][col] == m2[i][col],
    ensures
        dot(c1, m1, col, k) == dot(c2, m2, col, k),
    decreases k,
{
    if k > 0 {
        lemma_dot_prefix(c1, m1, c2, m2, col, k - 1);
    }
}

// ============================================================================
// The rank of the incidence matrix is nodes minus components
// ============================================================================

/// Boolean sequences of length `k` that are false at every representative
/// (`rep[x] == x`) below `k`.
pub open spec fn free_seqs(rep: Seq<int>, k: nat) -> Set<Seq<bool>> {
    Set::new(|s: Seq<bool>| s.len() == k && forall|x: int| 0 <= x < k && rep[x] == x ==> !#[trigger] s[x])
}

proof fn lemma_free_seqs_len(rep: Seq<int>, k: nat)
    requires
        count_roots(rep, k as int) <= k,
    ensures
        free_seqs(rep, k).finite(),
        free_seqs(rep, k).len() == two_pow((k - count_roots(rep, k as int)) as nat),
    decreases k,
{
    if k == 0 {
        assert forall|x: Seq<bool>| #[trigger] free_seqs(rep, 0).contains(x) implies x == Seq::<bool>::empty() by {
            assert(x =~= Seq::<bool>::empty());
        }
        assert(free_seqs(rep, 0) =~= Set::<Seq<bool>>::empty().insert(Seq::<bool>::empty()));
    } else {
        let j = (k - 1) as nat;
        let prev = free_seqs(rep, j);
        lemma_count_roots_le(rep, j as int);
        lemma_free_seqs_len(rep, j);
        let f0 = |s: Seq<bool>| s.push(false);
        let f1 = |s: Seq<bool>| s.push(true);
        let a = prev.map(f0);
        let b = prev.map(f1);
        assert(vstd::relations::injective_on(f0, prev)) by {
            assert forall|x: Seq<bool>, y: Seq<bool>| prev.contains(x) && prev.contains(y) && #[trigger] f0(x)
                == #[trigger] f0(y) implies x == y by {
                assert(x =~= f0(x).drop_last());
                assert(y =~= f0(y).drop_last());
            }
        }
        assert(vstd::relations::injective_on(f1, prev)) by {
            assert forall|x: Seq<bool>, y: Seq<bool>| prev.contains(x) && prev.contains(y) && #[trigger] f1(x)
                == #[trigger] f1(y) implies x == y by {
                assert(x =~= f1(x).drop_last());
                assert(y =~= f1(y).drop_last());
            }
        }
        vstd::set_lib::lemma_map_size(prev, a, f0);
        vstd::set_lib::lemma_map_size(prev, b, f1);
        assert forall|s: Seq<bool>| #[trigger] free_seqs(rep, k).contains(s) implies prev.contains(s.drop_last()) by {
            assert forall|x: int| 0 <= x < j && rep[x] == x implies !#[trigger] s.drop_last()[x] by {
                assert(!s[x]);
            }
        }
        if rep[j as int] == j {
            assert(free_seqs(rep, k) =~= a) by {
                assert forall|s: Seq<bool>| #[trigger] free_seqs(rep, k).contains(s) implies a.contains(s) by {
                    assert(!s[j as int]);
                    assert(s =~= f0(s.drop_last()));
                }
                assert forall|s: Seq<bool>| a.contains(s) implies #[trigger] free_seqs(rep, k).contains(s) by {
                    let x = choose|x: Seq<bool>| prev.contains(x) && f0(x) == s;
                    assert forall|t: int| 0 <= t < k && rep[t] == t implies !#[trigger] s[t] by {
                        if t < j {
                            assert(s[t] == x[t]);
                        }
                    }
                }
            }
            assert(two_pow((k - count_roots(rep, k as int)) as nat) == two_pow((j - count_roots(rep, j as int)) as nat));
        } else {
            assert(a.disjoint(b)) by {
                assert forall|s: Seq<bool>| a.contains(s) implies !b.contains(s) by {
                    let x = choose|x: Seq<bool>| prev.contains(x) && f0(x) == s;
                    if b.contains(s) {
                        let y = choose|y: Seq<bool>| prev.contains(y) && f1(y) == s;
                        assert(f0(x).last() != f1(y).last());
                    }
                }
            }
            assert(free_seqs(rep, k) =~= a + b) by {
                assert forall|s: Seq<bool>| #[trigger] free_seqs(rep, k).contains(s) implies (a + b).contains(s) by {
                    if s.last() {
                        assert(s =~= f1(s.drop_last()));
                    } else {
                        assert(s =~= f0(s.drop_last()));
                    }
                }
                assert forall|s: Seq<bool>| (a + b).contains(s) implies #[trigger] free_seqs(rep, k).contains(s) by {
                    if a.contains(s) {
                        let x = choose|x: Seq<bool>| prev.contains(x) && f0(x) == s;
                        assert forall|t: int| 0 <= t < k && rep[t] == t implies !#[trigger] s[t] by {
                            if t < j {
                                assert(s[t] == x[t]);
                            }
                        }
                    } else {
                        let x = choose|x: Seq<bool>| prev.contains(x) && f1(x) == s;
                        assert forall|t: int| 0 <= t < k && rep[t] == t implies !#[trigger] s[t] by {
                            if t < j {
                                assert(s[t] == x[t]);
                            }
                        }
                    }
                }
            }
            vstd::set_lib::lemma_set_disjoint_lens(a, b);
            assert(count_roots(rep, k as int) == count_roots(rep, j as int));
            assert((k - count_roots(rep, k as int)) as nat == ((j - count_roots(rep, j as int)) + 1) as nat);
        }
    }
}

pub(crate) proof fn lemma_count_roots_le(rep: Seq<int>, k: int)
    requires
        k >= 0,
    ensures
        count_roots(rep, k) <= k,
    decreases k,
{
    if k > 0 {
        lemma_count_roots_le(rep, k - 1);
    }
}

/// The vertex–edge incidence matrix of `pairs` over `n` vertices: row per
/// vertex, column per pair; a loop gives a zero column.
pub open spec fn incidence(n: nat, pairs: Seq<(int, int)>) -> Seq<Seq<bool>> {
    Seq::new(n, |i: int| Seq::new(pairs.len(), |c: int| (i == pairs[c].0) != (i == pairs[c].1)))
}

/// `rep` picks one representative per component of the graph of `pairs`:
/// two vertices share a representative exactly when the pairs connect them.
pub open spec fn represents(n: nat, pairs: Seq<(int, int)>, rep: Seq<int>) -> bool {
    &&& rep.len() == n
    &&& forall|x: int| 0 <= x < n ==> 0 <= #[trigger] rep[x] < n && rep[rep[x]] == rep[x]
    &&& forall|x: int, y: int|
        0 <= x < n && 0 <= y < n ==> (#[trigger] rep[x] == #[trigger] rep[y]) == (comp_labels(n, pairs)[x]
            == comp_labels(n, pairs)[y])
}

/// A vertex labelling that agrees across every pair is constant on each
/// component.
proof fn lemma_labels_respect(n: nat, pairs: Seq<(int, int)>, d: Seq<bool>)
    requires
        pairs_within(n, pairs),
        forall|k: int| 0 <= k < pairs.len() ==> d[(#[trigger] pairs[k]).0] == d[pairs[k].1],
    ensures
        forall|x: int, y: int|
            0 <= x < n && 0 <= y < n && #[trigger] comp_labels(n, pairs)[x] == #[trigger] comp_labels(n, pairs)[y]
                ==> d[x] == d[y],
    decreases pairs.len(),
{
    if pairs.len() > 0 {
        let init = pairs.drop_last();
        assert(pairs_within(n, init)) by {
            assert forall|k: int| 0 <= k < init.len() implies 0 <= (#[trigger] init[k]).0 < n && 0 <= init[k].1 < n by {
                assert(init[k] == pairs[k]);
            }
        }
        assert forall|k: int| 0 <= k < init.len() implies d[(#[trigger] init[k]).0] == d[init[k].1] by {
            assert(init[k] == pairs[k]);
        }
        lemma_labels_respect(n, init, d);
        lemma_comp_labels_len(n, init);
        let lab = comp_labels(n, init);
        let p = pairs.last();
        assert(p == pairs[pairs.len() - 1]);
        assert(d[p.0] == d[p.1]);
        assert forall|x: int, y: int|
            0 <= x < n && 0 <= y < n && #[trigger] comp_labels(n, pairs)[x] == #[trigger] comp_labels(n, pairs)[y]
                implies d[x] == d[y] by {
            let la = lab[p.0];
            let lb = lab[p.1];
            if lab[x] == lb && lab[y] != lb {
                assert(lab[y] == la);
                assert(d[x] == d[p.1]);
                assert(d[y] == d[p.0]);
            } else if lab[y] == lb && lab[x] != lb {
                assert(lab[x] == la);
                assert(d[y] == d[p.1]);
                assert(d[x] == d[p.0]);
            }
        }
    }
}

/// Column `c` of a combination of incidence rows is the XOR of the
/// selection at the pair's two ends (zero for a loop).
proof fn lemma_incidence_column(n: nat, pairs: Seq<(int, int)>, sel: Seq<bool>, c: int)
    requires
        pairs_within(n, pairs),
        sel.len() == n,
        0 <= c < pairs.len(),
    ensures
        lin_comb(sel, incidence(n, pairs), pairs.len())[c] == (pairs[c].0 != pairs[c].1 && sel[pairs[c].0]
            != sel[pairs[c].1]),
{
    let m = incidence(n, pairs);
    let a = pairs[c].0;
    let b = pairs[c].1;
    lemma_dot_is_par(sel, m, c, n as int);
    let f = |i: int| sel[i] && m[i][c];
    if a == b {
        assert forall|i: int| 0 <= i < n implies !#[trigger] f(i) by {}
        lemma_par_none(f, n as int);
    } else {
        assert forall|i: int| 0 <= i < n && #[trigger] f(i) implies i == a || i == b by {}
        lemma_par_two(f, n as int, a, b);
    }
}

/// The Z₂ rank of the incidence matrix of a graph is its number of vertices
/// minus its number of components.
pub proof fn lemma_incidence_rank(n: nat, pairs: Seq<(int, int)>, rep: Seq<int>, r: nat)
    requires
        pairs_within(n, pairs),
        represents(n, pairs, rep),
        is_gf2_rank(incidence(n, pairs), pairs.len(), r),
    ensures
        r + count_roots(rep, n as int) == n,
{
    let w = pairs.len();
    let m = incidence(n, pairs);
    let lab = comp_labels(n, pairs);
    lemma_comp_labels_len(n, pairs);
    lemma_rank_span_size(m, w, r);
    lemma_count_roots_le(rep, n as int);
    lemma_free_seqs_len(rep, n);
    let dom = free_seqs(rep, n);
    let phi = |sel: Seq<bool>| lin_comb(sel, m, w);
    // Every pair joins two vertices of one component.
    assert forall|k: int| 0 <= k < w implies #[trigger] rep[pairs[k].0] == rep[pairs[k].1] by {
        lemma_comp_labels_joined(n, pairs, k);
    }
    assert(vstd::relations::injective_on(phi, dom)) by {
        assert forall|x: Seq<bool>, y: Seq<bool>| dom.contains(x) && dom.contains(y) && #[trigger] phi(x) == #[trigger] phi(
            y,
        ) implies x == y by {
            let d = Seq::new(n, |i: int| x[i] != y[i]);
            assert forall|k: int| 0 <= k < w implies d[(#[trigger] pairs[k]).0] == d[pairs[k].1] by {
                lemma_incidence_column(n, pairs, x, k);
                lemma_incidence_column(n, pairs, y, k);
                assert(phi(x)[k] == phi(y)[k]);
            }
            lemma_labels_respect(n, pairs, d);
            assert forall|i: int| 0 <= i < n implies x[i] == y[i] by {
                let q = rep[i];
                assert(rep[q] == q);
                assert(rep[i] == rep[q]);
                assert(lab[i] == lab[q]);
                assert(d[i] == d[q]);
                assert(!x[q] && !y[q]);
            }
            assert(x =~= y);
        }
    }
    let img = dom.map(phi);
    vstd::set_lib::lemma_map_size(dom, img, phi);
    assert(img =~= span_set(m, w)) by {
        assert forall|v: Seq<bool>| img.contains(v) implies #[trigger] span_set(m, w).contains(v) by {
            let sel = choose|sel: Seq<bool>| dom.contains(sel) && phi(sel) == v;
            assert(sel.len() == m.len());
        }
        assert forall|v: Seq<bool>| #[trigger] span_set(m, w).contains(v) implies img.contains(v) by {
            let c = choose|c: Seq<bool>| c.len() == m.len() && #[trigger] lin_comb(c, m, w) == v;
            let s2 = Seq::new(n, |i: int| c[i] != c[rep[i]]);
            assert(dom.contains(s2)) by {
                assert forall|x: int| 0 <= x < n && rep[x] == x implies !#[trigger] s2[x] by {}
            }
            assert forall|k: int| 0 <= k < w implies #[trigger] phi(s2)[k] == v[k] by {
                lemma_incidence_column(n, pairs, s2, k);
                lemma_incidence_column(n, pairs, c, k);
                let a = pairs[k].0;
                let b = pairs[k].1;
                assert(rep[a] == rep[b]);
            }
            assert(phi(s2) =~= v);
        }
    }
    let cr = count_roots(rep, n as int);
    if r < n - cr {
        lemma_two_pow_strict(r, (n - cr) as nat);
    } else if r > n - cr {
        lemma_two_pow_strict((n - cr) as nat, r);
    }
}

/// Labels are vertices, and a vertex-count increase adds one singleton.
pub(crate) proof fn lemma_comp_labels_extend(n: nat, pairs: Seq<(int, int)>)
    requires
        pairs_within(n, pairs),
    ensures
        forall|x: int| 0 <= x < n ==> 0 <= #[trigger] comp_labels(n, pairs)[x] < n,
        forall|x: int| 0 <= x < n ==> #[trigger] comp_labels(n + 1, pairs)[x] == comp_labels(n, pairs)[x],
        comp_labels(n + 1, pairs)[n as int] == n,
    decreases pairs.len(),
{
    lemma_comp_labels_len(n, pairs);
    lemma_comp_labels_len(n + 1, pairs);
    if pairs.len() > 0 {
        let init = pairs.drop_last();
        assert(pairs_within(n, init)) by {
            assert forall|k: int| 0 <= k < init.len() implies 0 <= (#[trigger] init[k]).0 < n && 0 <= init[k].1 < n by {
                assert(init[k] == pairs[k]);
            }
        }
        lemma_comp_labels_extend(n, init);
        lemma_comp_labels_len(n, init);
        lemma_comp_labels_len(n + 1, init);
        let p = pairs.last();
        assert(p == pairs[pairs.len() - 1]);
    }
}

/// Appending a pair merges the two components it joins, and nothing else.
pub(crate) proof fn lemma_comp_labels_push(n: nat, pairs: Seq<(int, int)>, a: int, b: int, x: int, y: int)
    requires
        pairs_within(n, pairs),
        0 <= a < n,
        0 <= b < n,
        0 <= x < n,
        0 <= y < n,
    ensures
        ({
            let lab = comp_labels(n, pairs);
            let lab2 = comp_labels(n, pairs.push((a, b)));
            (lab2[x] == lab2[y]) == (lab[x] == lab[y] || (lab[x] == lab[a] && lab[y] == lab[b]) || (lab[x]
                == lab[b] && lab[y] == lab[a]))
        }),
{
    let q = pairs.push((a, b));
    assert(q.drop_last() =~= pairs);
    lemma_comp_labels_len(n, pairs);
    lemma_comp_labels_len(n, q);
}

} // verus!
