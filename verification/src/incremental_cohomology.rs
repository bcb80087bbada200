//! Incremental maintenance of H¹ = dim ker ∂₁ − dim im ∂₂ over Z₂.
//!
//! rank ∂₁ comes from a union-find (nodes minus components); rank ∂₂ from an
//! echelon basis of triangle boundary columns, reduced one triangle at a time.
use vstd::prelude::*;

use crate::buffers::{sparse_items, SparseCol};
use crate::cohomology::{lemma_word_bits, word_bit};
use crate::cycle_space::{
    bool_seqs, incidence, lemma_bool_seqs_len, lemma_comp_labels_extend, lemma_comp_labels_push, lemma_dot_prefix,
    lemma_incidence_rank, lemma_rank_span_size, lemma_two_pow_strict, pairs_within, represents, span_set,
};
use crate::gf2::{dot, is_gf2_rank, lin_comb};
use crate::signal::NodeId;

verus! {

/// Number of elements below `k` that are their own representative.
pub open spec fn count_roots(root: Seq<int>, k: int) -> nat
    decreases k,
{
    if k <= 0 {
        0
    } else {
        count_roots(root, k - 1) + if root[k - 1] == k - 1 {
            1nat
        } else {
            0nat
        }
    }
}

proof fn lemma_count_roots_bound(root: Seq<int>, k: int)
    requires
        0 <= k,
    ensures
        count_roots(root, k) <= k,
    decreases k,
{
    if k > 0 {
        lemma_count_roots_bound(root, k - 1);
    }
}

proof fn lemma_count_roots_same(a: Seq<int>, b: Seq<int>, k: int)
    requires
        0 <= k,
        forall|i: int| 0 <= i < k ==> (a[i] == i) == (b[i] == i),
    ensures
        count_roots(a, k) == count_roots(b, k),
    decreases k,
{
    if k > 0 {
        lemma_count_roots_same(a, b, k - 1);
    }
}

proof fn lemma_count_roots_drop(a: Seq<int>, b: Seq<int>, k: int, c: int)
    requires
        0 <= c < k,
        a[c] == c,
        b[c] != c,
        forall|i: int| 0 <= i < k && i != c ==> (a[i] == i) == (b[i] == i),
    ensures
        count_roots(b, k) + 1 == count_roots(a, k),
    decreases k,
{
    if k - 1 == c {
        lemma_count_roots_same(a, b, k - 1);
    } else {
        lemma_count_roots_drop(a, b, k - 1, c);
    }
}

/// Union-find with path compression and union by rank; tracks the number of
/// components so that rank ∂₁ = nodes − components.
pub struct PersistentUnionFind {
    parent: Vec<u32>,
    rank: Vec<u8>,
    components: usize,
    num_nodes: usize,
    root: Ghost<Seq<int>>,
    level: Ghost<Seq<nat>>,
    bound: Ghost<nat>,
}

impl PersistentUnionFind {
    /// Number of nodes added so far.
    pub closed spec fn node_count(&self) -> nat {
        self.num_nodes as nat
    }

    /// Number of components.
    pub closed spec fn component_count(&self) -> nat {
        self.components as nat
    }

    /// Representative of each node.
    pub closed spec fn roots(&self) -> Seq<int> {
        self.root@
    }

    /// Forest invariant: parents in range, each node's representative is a
    /// root reached through its parent with strictly higher level, and the
    /// component count is the number of roots.
    pub closed spec fn inv(&self) -> bool {
        let n = self.num_nodes as int;
        let p = self.parent@;
        let root = self.root@;
        let lvl = self.level@;
        &&& p.len() >= n
        &&& self.rank@.len() == p.len()
        &&& root.len() == n
        &&& lvl.len() == n
        &&& n < u32::MAX
        &&& self.components == count_roots(root, n)
        &&& forall|x: int|
            0 <= x < n ==> {
                &&& (#[trigger] p[x]) < n
                &&& root[p[x] as int] == root[x]
                &&& (p[x] == x ==> root[x] == x)
                &&& (p[x] != x ==> lvl[p[x] as int] > lvl[x])
            }
        &&& forall|x: int|
            0 <= x < n ==> 0 <= #[trigger] root[x] < n && p[root[x]] == root[x] && (root[x] != x
                ==> lvl[root[x]] > lvl[x])
        &&& forall|x: int| 0 <= x < n ==> #[trigger] lvl[x] <= self.bound@
    }

    /// Representatives are nodes that represent themselves, and the component
    /// count is the number of them.
    pub proof fn lemma_roots(&self)
        requires
            self.inv(),
        ensures
            self.roots().len() == self.node_count(),
            forall|x: int|
                0 <= x < self.node_count() ==> 0 <= #[trigger] self.roots()[x] < self.node_count()
                    && self.roots()[self.roots()[x]] == self.roots()[x],
            self.component_count() == count_roots(self.roots(), self.node_count() as int),
    {
        let n = self.num_nodes as int;
        let p = self.parent@;
        let root = self.root@;
        assert forall|x: int| 0 <= x < n implies 0 <= #[trigger] root[x] < n && root[root[x]] == root[x] by {
            let y = root[x];
            assert(p[y] == y);
        }
    }

    /// An empty forest.
    pub fn new() -> (s: Self)
        ensures
            s.inv(),
            s.node_count() == 0,
            s.component_count() == 0,
    {
        PersistentUnionFind {
            parent: Vec::new(),
            rank: Vec::new(),
            components: 0,
            num_nodes: 0,
            root: Ghost(Seq::empty()),
            level: Ghost(Seq::empty()),
            bound: Ghost(0),
        }
    }

    /// Adds a singleton node.
    pub fn add_node(&mut self)
        requires
            old(self).inv(),
            old(self).node_count() + 1 < u32::MAX,
        ensures
            final(self).inv(),
            final(self).node_count() == old(self).node_count() + 1,
            final(self).component_count() == old(self).component_count() + 1,
            final(self).roots() == old(self).roots().push(old(self).node_count() as int),
    {
        let idx = self.num_nodes;
        let ghost n = idx as int;
        let ghost r0 = self.root@;
        let ghost p0 = self.parent@;
        let ghost lv = self.level@;
        proof {
            lemma_count_roots_bound(r0, n);
        }
        if idx >= self.parent.len() {
            self.parent.push(idx as u32);
            self.rank.push(0);
        } else {
            self.parent.set(idx, idx as u32);
            self.rank.set(idx, 0);
        }
        self.num_nodes = idx + 1;
        self.components = self.components + 1;
        proof {
            self.root@ = r0.push(n);
            self.level@ = lv.push(0nat);
            let root = self.root@;
            let p = self.parent@;
            let lvl = self.level@;
            assert(count_roots(root, n) == count_roots(r0, n)) by {
                lemma_count_roots_same(r0, root, n);
            }
            assert forall|x: int| 0 <= x < n + 1 implies {
                &&& (#[trigger] p[x]) < n + 1
                &&& root[p[x] as int] == root[x]
                &&& (p[x] == x ==> root[x] == x)
                &&& (p[x] != x ==> lvl[p[x] as int] > lvl[x])
            } by {
                if x < n {
                    assert(p[x] == p0[x]);
                    assert(p0[x] < n);
                }
            }
            assert forall|x: int| 0 <= x < n + 1 implies 0 <= #[trigger] root[x] < n + 1 && p[root[x]]
                == root[x] && (root[x] != x ==> lvl[root[x]] > lvl[x]) by {
                if x < n {
                    assert(0 <= r0[x] < n);
                    assert(p0[r0[x]] == r0[x]);
                }
            }
            assert forall|x: int| 0 <= x < n + 1 implies #[trigger] lvl[x] <= self.bound@ by {
                if x < n {
                    assert(lv[x] <= self.bound@);
                }
            }
        }
    }

    /// Representative of `x`; every node on the walked path is then pointed
    /// straight at it.
    pub fn find(&mut self, x: usize) -> (r: usize)
        requires
            old(self).inv(),
            x < old(self).node_count(),
        ensures
            final(self).inv(),
            final(self).node_count() == old(self).node_count(),
            final(self).component_count() == old(self).component_count(),
            final(self).roots() == old(self).roots(),
            r == old(self).roots()[x as int],
    {
        let ghost n = self.num_nodes as int;
        let mut root = x;
        while self.parent[root] as usize != root
            invariant
                self.inv(),
                n == self.num_nodes,
                root < n,
                self.root@[root as int] == self.root@[x as int],
            decreases self.bound@ - self.level@[root as int],
        {
            proof {
                let pr = self.parent@[root as int];
                assert(self.level@[pr as int] > self.level@[root as int]);
                assert(self.level@[pr as int] <= self.bound@);
            }
            root = self.parent[root] as usize;
        }
        proof {
            assert(self.parent@[root as int] == root);
            assert(self.root@[root as int] == root);
        }
        let ghost r0 = self.root@;
        let mut node = x;
        while self.parent[node] as usize != root
            invariant
                self.inv(),
                n == self.num_nodes,
                self.root@ == r0,
                node < n,
                root < n,
                self.parent@[root as int] == root,
                r0[node as int] == root,
            decreases self.bound@ - self.level@[node as int],
        {
            let ghost p0 = self.parent@;
            let ghost lvl = self.level@;
            let next = self.parent[node] as usize;
            proof {
                if p0[node as int] == node {
                    assert(r0[node as int] == node);
                }
                assert(next != node);
                assert(lvl[next as int] > lvl[node as int]);
                assert(lvl[next as int] <= self.bound@);
                assert(r0[node as int] != node);
                assert(lvl[root as int] > lvl[node as int]);
            }
            self.parent.set(node, root as u32);
            proof {
                let p = self.parent@;
                assert forall|y: int| 0 <= y < n implies {
                    &&& (#[trigger] p[y]) < n
                    &&& r0[p[y] as int] == r0[y]
                    &&& (p[y] == y ==> r0[y] == y)
                    &&& (p[y] != y ==> lvl[p[y] as int] > lvl[y])
                } by {
                    if y != node as int {
                        assert(p[y] == p0[y]);
                    } else {
                        assert(r0[root as int] == root);
                    }
                }
                assert forall|y: int| 0 <= y < n implies 0 <= #[trigger] r0[y] < n && p[r0[y]] == r0[y] && (
                r0[y] != y ==> lvl[r0[y]] > lvl[y]) by {
                    assert(p0[r0[y]] == r0[y]);
                    if r0[y] == node as int {
                        assert(r0[node as int] == node);
                        assert(false);
                    }
                }
            }
            node = next;
        }
        root
    }

    /// Merges the components of `u` and `v`; `false` when already merged.
    pub fn union(&mut self, u: usize, v: usize) -> (merged: bool)
        requires
            old(self).inv(),
            u < old(self).node_count(),
            v < old(self).node_count(),
        ensures
            final(self).inv(),
            final(self).node_count() == old(self).node_count(),
            merged == (old(self).roots()[u as int] != old(self).roots()[v as int]),
            final(self).component_count() == old(self).component_count() - if merged {
                1int
            } else {
                0int
            },
            forall|x: int, y: int|
                0 <= x < old(self).node_count() && 0 <= y < old(self).node_count() ==> (
                #[trigger] final(self).roots()[x] == #[trigger] final(self).roots()[y]) == ({
                    let r = old(self).roots();
                    ||| r[x] == r[y]
                    ||| (r[x] == r[u as int] && r[y] == r[v as int])
                    ||| (r[x] == r[v as int] && r[y] == r[u as int])
                }),
    {
        let ghost n = self.num_nodes as int;
        let ghost r0 = self.root@;
        let ru = self.find(u);
        let rv = self.find(v);
        if ru == rv {
            return false;
        }
        let ghost lv = self.level@;
        let ghost bd = self.bound@;
        let ghost p0 = self.parent@;
        proof {
            assert(lv[ru as int] <= bd);
            assert(lv[rv as int] <= bd);
            assert(p0[ru as int] == ru);
            assert(p0[rv as int] == rv);
            assert(r0[ru as int] == ru);
            assert(r0[rv as int] == rv);
        }
        let rank_u = self.rank[ru];
        let rank_v = self.rank[rv];
        let ghost child: int;
        let ghost top: int;
        if rank_u < rank_v {
            self.parent.set(ru, rv as u32);
            proof {
                child = ru as int;
                top = rv as int;
            }
        } else if rank_u > rank_v {
            self.parent.set(rv, ru as u32);
            proof {
                child = rv as int;
                top = ru as int;
            }
        } else {
            self.parent.set(rv, ru as u32);
            let bumped = rank_u.saturating_add(1);
            self.rank.set(ru, bumped);
            proof {
                child = rv as int;
                top = ru as int;
            }
        }
        proof {
            let newl = if lv[top] > lv[child] {
                lv[top]
            } else {
                (lv[child] + 1) as nat
            };
            self.level@ = lv.update(top, newl);
            self.bound@ = if newl > bd {
                newl
            } else {
                bd
            };
            self.root@ = Seq::new(n as nat, |i: int| if r0[i] == child { top } else { r0[i] });
        }
        proof {
            let root = self.root@;
            assert(count_roots(root, n) + 1 == count_roots(r0, n)) by {
                assert forall|i: int| 0 <= i < n && i != child implies (r0[i] == i) == (root[i] == i) by {
                    if r0[i] == child {
                        assert(i != child);
                    }
                }
                lemma_count_roots_drop(r0, root, n, child);
            }
        }
        self.components = self.components - 1;
        proof {
            let p = self.parent@;
            let root = self.root@;
            let lvl = self.level@;
            assert forall|x: int| 0 <= x < n implies {
                &&& (#[trigger] p[x]) < n
                &&& root[p[x] as int] == root[x]
                &&& (p[x] == x ==> root[x] == x)
                &&& (p[x] != x ==> lvl[p[x] as int] > lvl[x])
            } by {
                assert(p0[x] < n);
                assert(r0[p0[x] as int] == r0[x]);
                if p0[x] != x {
                    assert(lv[p0[x] as int] > lv[x]);
                } else {
                    assert(r0[x] == x);
                }
                assert(r0[x] < n);
                assert(p0[r0[x]] == r0[x]);
            }
            assert forall|x: int| 0 <= x < n implies 0 <= #[trigger] root[x] < n && p[root[x]] == root[x] && (
            root[x] != x ==> lvl[root[x]] > lvl[x]) by {
                assert(0 <= r0[x] < n);
                assert(p0[r0[x]] == r0[x]);
                if r0[x] != x {
                    assert(lv[r0[x]] > lv[x]);
                }
            }
            assert forall|x: int| 0 <= x < n implies #[trigger] lvl[x] <= self.bound@ by {
                assert(lv[x] <= bd);
            }
        }
        true
    }

    /// rank ∂₁ = nodes − components.
    pub fn rank_d1(&self) -> (r: usize)
        ensures
            r == if self.node_count() >= self.component_count() {
                self.node_count() - self.component_count()
            } else {
                0
            },
    {
        self.num_nodes.saturating_sub(self.components)
    }
}


/// Sum over Z₂ of two columns (as sets of row indices): the symmetric difference.
pub open spec fn sym_diff(a: Set<int>, b: Set<int>) -> Set<int> {
    Set::new(|x: int| a.contains(x) != b.contains(x))
}

/// Z₂ sum of the columns selected by `sel`.
pub open spec fn xor_sum(cols: Seq<Set<int>>, sel: Seq<bool>) -> Set<int>
    decreases cols.len(),
{
    if cols.len() == 0 {
        Set::empty()
    } else {
        let rest = xor_sum(cols.drop_last(), sel.drop_last());
        if sel.last() {
            sym_diff(rest, cols.last())
        } else {
            rest
        }
    }
}

/// `v` is a Z₂ combination of `cols`.
pub open spec fn in_col_span(v: Set<int>, cols: Seq<Set<int>>) -> bool {
    exists|sel: Seq<bool>| sel.len() == cols.len() && #[trigger] xor_sum(cols, sel) == v
}

/// Every column of `a` is a Z₂ combination of the columns of `b`.
pub open spec fn spans_within(a: Seq<Set<int>>, b: Seq<Set<int>>) -> bool {
    forall|i: int| 0 <= i < a.len() ==> in_col_span(#[trigger] a[i], b)
}

/// Pointwise XOR of two selectors.
pub open spec fn sel_xor(s1: Seq<bool>, s2: Seq<bool>) -> Seq<bool> {
    Seq::new(s1.len(), |i: int| s1[i] != s2[i])
}

proof fn lemma_xor_sum_zero(cols: Seq<Set<int>>, sel: Seq<bool>)
    requires
        sel.len() == cols.len(),
        forall|i: int| 0 <= i < sel.len() ==> !sel[i],
    ensures
        xor_sum(cols, sel) == Set::<int>::empty(),
    decreases cols.len(),
{
    if cols.len() > 0 {
        lemma_xor_sum_zero(cols.drop_last(), sel.drop_last());
    }
}

proof fn lemma_xor_sum_sel_xor(cols: Seq<Set<int>>, s1: Seq<bool>, s2: Seq<bool>)
    requires
        s1.len() == cols.len(),
        s2.len() == cols.len(),
    ensures
        xor_sum(cols, sel_xor(s1, s2)) == sym_diff(xor_sum(cols, s1), xor_sum(cols, s2)),
    decreases cols.len(),
{
    if cols.len() == 0 {
        assert(sym_diff(Set::<int>::empty(), Set::<int>::empty()) =~= Set::<int>::empty());
    } else {
        let c = cols.drop_last();
        lemma_xor_sum_sel_xor(c, s1.drop_last(), s2.drop_last());
        assert(sel_xor(s1, s2).drop_last() =~= sel_xor(s1.drop_last(), s2.drop_last()));
        let a = xor_sum(c, s1.drop_last());
        let b = xor_sum(c, s2.drop_last());
        let l = cols.last();
        let lhs = xor_sum(cols, sel_xor(s1, s2));
        let rhs = sym_diff(xor_sum(cols, s1), xor_sum(cols, s2));
        assert(lhs =~= rhs);
    }
}

proof fn lemma_span_xor(a: Set<int>, b: Set<int>, cols: Seq<Set<int>>)
    requires
        in_col_span(a, cols),
        in_col_span(b, cols),
    ensures
        in_col_span(sym_diff(a, b), cols),
{
    let s1 = choose|sel: Seq<bool>| sel.len() == cols.len() && #[trigger] xor_sum(cols, sel) == a;
    let s2 = choose|sel: Seq<bool>| sel.len() == cols.len() && #[trigger] xor_sum(cols, sel) == b;
    lemma_xor_sum_sel_xor(cols, s1, s2);
    assert(sel_xor(s1, s2).len() == cols.len());
}

proof fn lemma_span_empty(cols: Seq<Set<int>>)
    ensures
        in_col_span(Set::<int>::empty(), cols),
{
    let sel = Seq::new(cols.len(), |i: int| false);
    lemma_xor_sum_zero(cols, sel);
}

proof fn lemma_span_push(v: Set<int>, cols: Seq<Set<int>>, c: Set<int>)
    requires
        in_col_span(v, cols),
    ensures
        in_col_span(v, cols.push(c)),
{
    let sel = choose|sel: Seq<bool>| sel.len() == cols.len() && #[trigger] xor_sum(cols, sel) == v;
    let sel2 = sel.push(false);
    assert(cols.push(c).drop_last() =~= cols);
    assert(sel2.drop_last() =~= sel);
    assert(xor_sum(cols.push(c), sel2) == v);
}

proof fn lemma_span_last(cols: Seq<Set<int>>, c: Set<int>)
    ensures
        in_col_span(c, cols.push(c)),
{
    let sel = Seq::new(cols.len(), |i: int| false);
    lemma_xor_sum_zero(cols, sel);
    let sel2 = sel.push(true);
    assert(cols.push(c).drop_last() =~= cols);
    assert(sel2.drop_last() =~= sel);
    assert(sym_diff(Set::<int>::empty(), c) =~= c);
    assert(xor_sum(cols.push(c), sel2) == c);
}

proof fn lemma_spans_within_push(a: Seq<Set<int>>, b: Seq<Set<int>>, c: Set<int>)
    requires
        spans_within(a, b),
    ensures
        spans_within(a, b.push(c)),
{
    assert forall|i: int| 0 <= i < a.len() implies in_col_span(#[trigger] a[i], b.push(c)) by {
        lemma_span_push(a[i], b, c);
    }
}

proof fn lemma_span_trans(v: Set<int>, b: Seq<Set<int>>, a: Seq<Set<int>>)
    requires
        spans_within(b, a),
        in_col_span(v, b),
    ensures
        in_col_span(v, a),
    decreases b.len(),
{
    let sel = choose|sel: Seq<bool>| sel.len() == b.len() && #[trigger] xor_sum(b, sel) == v;
    if b.len() == 0 {
        lemma_span_empty(a);
    } else {
        let bi = b.drop_last();
        let si = sel.drop_last();
        assert(spans_within(bi, a)) by {
            assert forall|i: int| 0 <= i < bi.len() implies in_col_span(#[trigger] bi[i], a) by {
                assert(bi[i] == b[i]);
            }
        }
        assert(in_col_span(xor_sum(bi, si), bi));
        lemma_span_trans(xor_sum(bi, si), bi, a);
        if sel.last() {
            let last = b.len() - 1;
            assert(in_col_span(b[last], a));
            lemma_span_xor(xor_sum(bi, si), b.last(), a);
        }
    }
}


/// Rows held by a list of indices.
pub open spec fn items_set(s: Seq<u32>) -> Set<int> {
    Set::new(|i: int| exists|k: int| 0 <= k < s.len() && s[k] as int == i)
}

/// Rows whose bit is set in a packed bitmap.
pub open spec fn dense_set(w: Seq<u64>) -> Set<int> {
    Set::new(|i: int| 0 <= i < 64 * w.len() && word_bit(w[i / 64], (i % 64) as u64))
}

/// Strictly increasing indices.
pub open spec fn increasing(s: Seq<u32>) -> bool {
    forall|i: int, j: int| 0 <= i < j < s.len() ==> s[i] < s[j]
}

/// Every row lies in `0..e`.
pub open spec fn bounded(s: Set<int>, e: int) -> bool {
    forall|x: int| s.contains(x) ==> 0 <= x < e
}

/// `p` is the smallest row of `s`.
pub open spec fn is_min_of(p: int, s: Set<int>) -> bool {
    s.contains(p) && forall|x: int| s.contains(x) ==> p <= x
}

/// Packed words that hold `e` rows, at least one.
pub open spec fn dense_words(e: int) -> int {
    if (e + 63) / 64 > 1 {
        (e + 63) / 64
    } else {
        1
    }
}

proof fn lemma_single_bit(b: u64, j: u64)
    requires
        b < 64,
        j < 64,
    ensures
        word_bit(1u64 << b, j) == (j == b),
{
    assert(word_bit(1u64 << b, j) == (j == b)) by (bit_vector)
        requires
            b < 64,
            j < 64,
    ;
}

proof fn lemma_nonzero_word(w: u64)
    requires
        w != 0,
    ensures
        (w.trailing_zeros() as int) < 64,
        word_bit(w, w.trailing_zeros() as u64),
        forall|j: u64| j < w.trailing_zeros() ==> !word_bit(w, j),
{
    vstd::std_specs::bits::axiom_u64_trailing_zeros(w);
}

fn sparse_to_dense(sv: &[u32], num_edges: usize) -> (bm: Vec<u64>)
    requires
        num_edges < u32::MAX,
    ensures
        bm@.len() == dense_words(num_edges as int),
        forall|i: int| #[trigger] dense_set(bm@).contains(i) == (items_set(sv@).contains(i) && i < 64 * bm@.len()),
{
    let n_words = num_edges / 64 + if num_edges % 64 != 0 {
        1
    } else {
        0
    };
    let n = if n_words > 1 {
        n_words
    } else {
        1
    };
    let mut bm: Vec<u64> = vec![0u64; n];
    proof {
        assert forall|i: int| #[trigger] dense_set(bm@).contains(i) == (items_set(sv@.take(0)).contains(i) && i
            < 64 * n) by {
            if 0 <= i < 64 * n {
                lemma_word_bits(0, 0, 0, (i % 64) as u64);
            }
        }
    }
    let mut k: usize = 0;
    while k < sv.len()
        invariant
            k <= sv@.len(),
            bm@.len() == n,
            n == dense_words(num_edges as int),
            forall|i: int| #[trigger] dense_set(bm@).contains(i) == (items_set(sv@.take(k as int)).contains(i) && i < 64 * n),
        decreases sv@.len() - k,
    {
        let idx = sv[k];
        let word = idx as usize / 64;
        let bit = idx as usize % 64;
        let ghost b0 = bm@;
        if word < bm.len() {
            let old_w = bm[word];
            bm.set(word, old_w | (1u64 << (bit as u64)));
        }
        proof {
            let t0 = sv@.take(k as int);
            let t1 = sv@.take(k as int + 1);
            assert forall|i: int| #[trigger] dense_set(bm@).contains(i) == (items_set(t1).contains(i) && i < 64 * n) by {
                assert(items_set(t1).contains(i) == (items_set(t0).contains(i) || i == idx as int)) by {
                    if items_set(t1).contains(i) {
                        let kk = choose|kk: int| 0 <= kk < t1.len() && t1[kk] as int == i;
                        if kk < k {
                            assert(t0[kk] == t1[kk]);
                        }
                    }
                    if items_set(t0).contains(i) {
                        let kk = choose|kk: int| 0 <= kk < t0.len() && t0[kk] as int == i;
                        assert(t1[kk] == t0[kk]);
                    }
                    if i == idx as int {
                        assert(t1[k as int] == idx);
                    }
                }
                assert(dense_set(b0).contains(i) == (items_set(t0).contains(i) && i < 64 * n));
                if 0 <= i < 64 * n {
                    let wi = i / 64;
                    let ji = (i % 64) as u64;
                    if wi == word as int && word < n {
                        lemma_word_bits(b0[wi], 0, bit as u64, ji);
                        assert((ji == bit as u64) == (i == idx as int));
                    } else {
                        assert(bm@[wi] == b0[wi]);
                        assert(i != idx as int);
                    }
                }
                if i == idx as int {
                    assert(!(word < n) ==> i >= 64 * n);
                }
            }
        }
        k += 1;
    }
    proof {
        assert(sv@.take(sv@.len() as int) =~= sv@);
    }
    bm
}

fn first_set_bit(bm: &Vec<u64>) -> (r: Option<u32>)
    requires
        64 * bm@.len() <= 0x1_0000_0000,
    ensures
        r matches Some(p) ==> is_min_of(p as int, dense_set(bm@)),
        r is None ==> forall|x: int| !dense_set(bm@).contains(x),
{
    let mut i: usize = 0;
    while i < bm.len()
        invariant
            i <= bm@.len(),
            64 * bm@.len() <= 0x1_0000_0000,
            forall|x: int| dense_set(bm@).contains(x) ==> x >= 64 * i,
        decreases bm@.len() - i,
    {
        let w = bm[i];
        if w != 0 {
            let tz = w.trailing_zeros();
            proof {
                lemma_nonzero_word(w);
                let p = 64 * i + tz as int;
                assert(p / 64 == i as int && p % 64 == tz as int);
                assert(dense_set(bm@).contains(p));
                assert forall|x: int| dense_set(bm@).contains(x) implies p <= x by {
                    if x < p {
                        assert(x / 64 == i as int);
                        assert((x % 64) < tz);
                    }
                }
            }
            return Some((i * 64 + tz as usize) as u32);
        }
        proof {
            assert forall|x: int| dense_set(bm@).contains(x) implies x >= 64 * (i + 1) by {
                if x < 64 * (i + 1) {
                    assert(x / 64 == i as int);
                    lemma_word_bits(0, 0, 0, (x % 64) as u64);
                }
            }
        }
        i += 1;
    }
    None
}

fn all_zero(bm: &Vec<u64>) -> (r: bool)
    ensures
        r == (forall|x: int| !dense_set(bm@).contains(x)),
{
    let mut i: usize = 0;
    while i < bm.len()
        invariant
            i <= bm@.len(),
            forall|x: int| 0 <= x < 64 * i ==> !dense_set(bm@).contains(x),
        decreases bm@.len() - i,
    {
        let w = bm[i];
        if w != 0 {
            proof {
                lemma_nonzero_word(w);
                let p = 64 * i + w.trailing_zeros() as int;
                assert(p / 64 == i as int && p % 64 == w.trailing_zeros() as int);
                assert(dense_set(bm@).contains(p));
            }
            return false;
        }
        proof {
            assert forall|x: int| 0 <= x < 64 * (i + 1) implies !dense_set(bm@).contains(x) by {
                if x >= 64 * i {
                    assert(x / 64 == i as int);
                    lemma_word_bits(0, 0, 0, (x % 64) as u64);
                }
            }
        }
        i += 1;
    }
    true
}

fn ensure_len(bm: &mut Vec<u64>, n: usize)
    ensures
        final(bm)@.len() == if old(bm)@.len() >= n {
            old(bm)@.len()
        } else {
            n as nat
        },
        forall|x: int| #[trigger] dense_set(final(bm)@).contains(x) == dense_set(old(bm)@).contains(x),
{
    let ghost b0 = bm@;
    while bm.len() < n
        invariant
            bm@.len() >= b0.len(),
            bm@.len() <= if b0.len() >= n { b0.len() } else { n as nat },
            forall|w: int| 0 <= w < b0.len() ==> #[trigger] bm@[w] == b0[w],
            forall|w: int| b0.len() <= w < bm@.len() ==> #[trigger] bm@[w] == 0,
        decreases n - bm@.len(),
    {
        bm.push(0);
    }
    proof {
        assert forall|x: int| #[trigger] dense_set(bm@).contains(x) == dense_set(b0).contains(x) by {
            if 0 <= x < 64 * bm@.len() && x >= 64 * b0.len() {
                assert(x / 64 >= b0.len());
                lemma_word_bits(0, 0, 0, (x % 64) as u64);
            }
        }
    }
}

fn toggle_items(bm: &mut Vec<u64>, items: &[u32])
    requires
        increasing(items@),
        forall|k: int| 0 <= k < items@.len() ==> (items@[k] as int) < 64 * old(bm)@.len(),
    ensures
        final(bm)@.len() == old(bm)@.len(),
        dense_set(final(bm)@) == sym_diff(dense_set(old(bm)@), items_set(items@)),
{
    let ghost b0 = bm@;
    let mut k: usize = 0;
    while k < items.len()
        invariant
            k <= items@.len(),
            increasing(items@),
            forall|kk: int| 0 <= kk < items@.len() ==> (items@[kk] as int) < 64 * b0.len(),
            bm@.len() == b0.len(),
            dense_set(bm@) == sym_diff(dense_set(b0), items_set(items@.take(k as int))),
        decreases items@.len() - k,
    {
        let idx = items[k];
        let word = idx as usize / 64;
        let bit = idx as usize % 64;
        let ghost cur = bm@;
        let old_w = bm[word];
        bm.set(word, old_w ^ (1u64 << (bit as u64)));
        proof {
            let t0 = items@.take(k as int);
            let t1 = items@.take(k as int + 1);
            assert forall|i: int| items_set(t1).contains(i) == (items_set(t0).contains(i) || i == idx as int) by {
                if items_set(t1).contains(i) {
                    let kk = choose|kk: int| 0 <= kk < t1.len() && t1[kk] as int == i;
                    if kk < k {
                        assert(t0[kk] == t1[kk]);
                    }
                }
                if items_set(t0).contains(i) {
                    let kk = choose|kk: int| 0 <= kk < t0.len() && t0[kk] as int == i;
                    assert(t1[kk] == t0[kk]);
                }
                if i == idx as int {
                    assert(t1[k as int] == idx);
                }
            }
            assert(!items_set(t0).contains(idx as int)) by {
                if items_set(t0).contains(idx as int) {
                    let kk = choose|kk: int| 0 <= kk < t0.len() && t0[kk] as int == idx as int;
                    assert(items@[kk] < items@[k as int]);
                }
            }
            assert forall|i: int| #[trigger] dense_set(bm@).contains(i) == (dense_set(cur).contains(i) != (i
                == idx as int)) by {
                if 0 <= i < 64 * b0.len() {
                    let wi = i / 64;
                    let ji = (i % 64) as u64;
                    if wi == word as int {
                        lemma_word_bits(old_w, 1u64 << (bit as u64), bit as u64, ji);
                        lemma_single_bit(bit as u64, ji);
                        assert((ji == bit as u64) == (i == idx as int));
                    } else {
                        assert(bm@[wi] == cur[wi]);
                        assert(i != idx as int);
                    }
                }
            }
            assert(dense_set(bm@) =~= sym_diff(dense_set(b0), items_set(t1)));
        }
        k += 1;
    }
    proof {
        assert(items@.take(items@.len() as int) =~= items@);
    }
}

fn xor_dense_into(da: &mut Vec<u64>, db: &Vec<u64>)
    requires
        old(da)@.len() >= db@.len(),
    ensures
        final(da)@.len() == old(da)@.len(),
        dense_set(final(da)@) == sym_diff(dense_set(old(da)@), dense_set(db@)),
{
    let ghost a0 = da@;
    let mut i: usize = 0;
    while i < db.len()
        invariant
            i <= db@.len(),
            da@.len() == a0.len(),
            a0.len() >= db@.len(),
            forall|w: int| 0 <= w < i ==> #[trigger] da@[w] == a0[w] ^ db@[w],
            forall|w: int| i <= w < a0.len() ==> #[trigger] da@[w] == a0[w],
        decreases db@.len() - i,
    {
        let x = da[i];
        da.set(i, x ^ db[i]);
        i += 1;
    }
    proof {
        assert forall|x: int| #[trigger] dense_set(da@).contains(x) == (dense_set(a0).contains(x) != dense_set(
            db@,
        ).contains(x)) by {
            if 0 <= x < 64 * a0.len() {
                let wi = x / 64;
                let ji = (x % 64) as u64;
                if wi < db@.len() {
                    lemma_word_bits(a0[wi], db@[wi], 0, ji);
                } else {
                    assert(!dense_set(db@).contains(x));
                }
            } else {
                assert(!dense_set(db@).contains(x));
            }
        }
        assert(dense_set(da@) =~= sym_diff(dense_set(a0), dense_set(db@)));
    }
}

fn copy_words(v: &Vec<u64>) -> (r: Vec<u64>)
    ensures
        r@ == v@,
{
    let mut r: Vec<u64> = Vec::new();
    let mut i: usize = 0;
    while i < v.len()
        invariant
            i <= v@.len(),
            r@ == v@.take(i as int),
        decreases v@.len() - i,
    {
        r.push(v[i]);
        proof {
            assert(v@.take(i as int + 1) =~= v@.take(i as int).push(v@[i as int]));
        }
        i += 1;
    }
    proof {
        assert(v@.take(v@.len() as int) =~= v@);
    }
    r
}


proof fn lemma_items_take_push(s: Seq<u32>, k: int)
    requires
        0 <= k < s.len(),
    ensures
        forall|i: int|
            #[trigger] items_set(s.take(k + 1)).contains(i) == (items_set(s.take(k)).contains(i) || i == s[k] as int),
{
    let t0 = s.take(k);
    let t1 = s.take(k + 1);
    assert forall|i: int| #[trigger] items_set(t1).contains(i) == (items_set(t0).contains(i) || i == s[k] as int) by {
        if items_set(t1).contains(i) {
            let kk = choose|kk: int| 0 <= kk < t1.len() && t1[kk] as int == i;
            if kk < k {
                assert(t0[kk] == t1[kk]);
            }
        }
        if items_set(t0).contains(i) {
            let kk = choose|kk: int| 0 <= kk < t0.len() && t0[kk] as int == i;
            assert(t1[kk] == t0[kk]);
        }
        if i == s[k] as int {
            assert(t1[k] == s[k]);
        }
    }
}

proof fn lemma_items_take_below(s: Seq<u32>, k: int, x: int)
    requires
        increasing(s),
        0 <= k < s.len(),
        items_set(s.take(k)).contains(x),
    ensures
        x < s[k] as int,
{
    let t = s.take(k);
    let kk = choose|kk: int| 0 <= kk < t.len() && t[kk] as int == x;
    assert(s[kk] < s[k]);
}

proof fn lemma_items_full(s: Seq<u32>)
    ensures
        s.take(s.len() as int) == s,
{
    assert(s.take(s.len() as int) =~= s);
}

/// Z₂ sum of two sorted index lists, as a sorted list (symmetric difference by merge).
fn merge_sym(sa: &[u32], sb: &[u32]) -> (r: SparseCol)
    requires
        increasing(sa@),
        increasing(sb@),
    ensures
        increasing(sparse_items(r)),
        items_set(sparse_items(r)) == sym_diff(items_set(sa@), items_set(sb@)),
{
    let mut result = SparseCol::new();
    let ghost a = sa@;
    let ghost b = sb@;
    let mut ia: usize = 0;
    let mut ib: usize = 0;
    let mut res_len: usize = 0;
    proof {
        assert(items_set(sparse_items(result)) =~= sym_diff(items_set(a.take(0)), items_set(b.take(0))));
    }
    while ia < sa.len() && ib < sb.len()
        invariant
            a == sa@,
            b == sb@,
            increasing(a),
            increasing(b),
            ia <= a.len(),
            ib <= b.len(),
            increasing(sparse_items(result)),
            items_set(sparse_items(result)) == sym_diff(items_set(a.take(ia as int)), items_set(b.take(ib as int))),
            ib < b.len() ==> forall|x: int| items_set(a.take(ia as int)).contains(x) ==> x < b[ib as int] as int,
            ia < a.len() ==> forall|x: int| items_set(b.take(ib as int)).contains(x) ==> x < a[ia as int] as int,
        decreases (a.len() - ia) + (b.len() - ib),
    {
        let x = sa[ia];
        let y = sb[ib];
        let ghost r0 = sparse_items(result);
        proof {
            lemma_items_take_push(a, ia as int);
            lemma_items_take_push(b, ib as int);
        }
        if x < y {
            proof {
                assert forall|k: int| 0 <= k < r0.len() implies r0[k] < x by {
                    assert(items_set(r0).contains(r0[k] as int));
                    if items_set(a.take(ia as int)).contains(r0[k] as int) {
                        lemma_items_take_below(a, ia as int, r0[k] as int);
                    }
                }
            }
            result.push(x);
            proof {
                lemma_items_take_push(r0.push(x), r0.len() as int);
                assert(r0.push(x).take(r0.len() as int) =~= r0);
                assert(r0.push(x).take(r0.len() as int + 1) =~= r0.push(x));
                assert(!items_set(b.take(ib as int)).contains(x as int));
                assert(!items_set(a.take(ia as int)).contains(x as int)) by {
                    if items_set(a.take(ia as int)).contains(x as int) {
                        lemma_items_take_below(a, ia as int, x as int);
                    }
                }
                assert(items_set(sparse_items(result)) =~= sym_diff(items_set(a.take(ia + 1)), items_set(b.take(ib as int))));
                if ia + 1 < a.len() {
                    assert(a[ia as int] < a[ia + 1]);
                }
            }
            ia += 1;
        } else if y < x {
            proof {
                assert forall|k: int| 0 <= k < r0.len() implies r0[k] < y by {
                    assert(items_set(r0).contains(r0[k] as int));
                    if items_set(b.take(ib as int)).contains(r0[k] as int) {
                        lemma_items_take_below(b, ib as int, r0[k] as int);
                    }
                }
            }
            result.push(y);
            proof {
                lemma_items_take_push(r0.push(y), r0.len() as int);
                assert(r0.push(y).take(r0.len() as int) =~= r0);
                assert(r0.push(y).take(r0.len() as int + 1) =~= r0.push(y));
                assert(!items_set(a.take(ia as int)).contains(y as int));
                assert(!items_set(b.take(ib as int)).contains(y as int)) by {
                    if items_set(b.take(ib as int)).contains(y as int) {
                        lemma_items_take_below(b, ib as int, y as int);
                    }
                }
                assert(items_set(sparse_items(result)) =~= sym_diff(items_set(a.take(ia as int)), items_set(b.take(ib + 1))));
                if ib + 1 < b.len() {
                    assert(b[ib as int] < b[ib + 1]);
                }
            }
            ib += 1;
        } else {
            proof {
                assert(!items_set(b.take(ib as int)).contains(y as int)) by {
                    if items_set(b.take(ib as int)).contains(y as int) {
                        lemma_items_take_below(b, ib as int, y as int);
                    }
                }
                assert(!items_set(a.take(ia as int)).contains(x as int)) by {
                    if items_set(a.take(ia as int)).contains(x as int) {
                        lemma_items_take_below(a, ia as int, x as int);
                    }
                }
                assert(items_set(sparse_items(result)) =~= sym_diff(items_set(a.take(ia + 1)), items_set(b.take(ib + 1))));
                if ia + 1 < a.len() {
                    assert(a[ia as int] < a[ia + 1]);
                }
                if ib + 1 < b.len() {
                    assert(b[ib as int] < b[ib + 1]);
                }
            }
            ia += 1;
            ib += 1;
        }
    }
    while ia < sa.len()
        invariant
            a == sa@,
            b == sb@,
            increasing(a),
            ia <= a.len(),
            ib <= b.len(),
            ia < a.len() ==> ib == b.len(),
            increasing(sparse_items(result)),
            items_set(sparse_items(result)) == sym_diff(items_set(a.take(ia as int)), items_set(b.take(ib as int))),
            ia < a.len() ==> forall|x: int| items_set(b.take(ib as int)).contains(x) ==> x < a[ia as int] as int,
        decreases a.len() - ia,
    {
        let x = sa[ia];
        let ghost r0 = sparse_items(result);
        proof {
            lemma_items_take_push(a, ia as int);
            assert forall|k: int| 0 <= k < r0.len() implies r0[k] < x by {
                assert(items_set(r0).contains(r0[k] as int));
                if items_set(a.take(ia as int)).contains(r0[k] as int) {
                    lemma_items_take_below(a, ia as int, r0[k] as int);
                }
            }
        }
        result.push(x);
        proof {
            lemma_items_take_push(r0.push(x), r0.len() as int);
            assert(r0.push(x).take(r0.len() as int) =~= r0);
            assert(r0.push(x).take(r0.len() as int + 1) =~= r0.push(x));
            assert(!items_set(a.take(ia as int)).contains(x as int)) by {
                if items_set(a.take(ia as int)).contains(x as int) {
                    lemma_items_take_below(a, ia as int, x as int);
                }
            }
            assert(items_set(sparse_items(result)) =~= sym_diff(items_set(a.take(ia + 1)), items_set(b.take(ib as int))));
            if ia + 1 < a.len() {
                assert(a[ia as int] < a[ia + 1]);
            }
        }
        ia += 1;
    }
    while ib < sb.len()
        invariant
            a == sa@,
            b == sb@,
            increasing(b),
            ia == a.len(),
            ib <= b.len(),
            increasing(sparse_items(result)),
            items_set(sparse_items(result)) == sym_diff(items_set(a.take(ia as int)), items_set(b.take(ib as int))),
            ib < b.len() ==> forall|x: int| items_set(a.take(ia as int)).contains(x) ==> x < b[ib as int] as int,
        decreases b.len() - ib,
    {
        let y = sb[ib];
        let ghost r0 = sparse_items(result);
        proof {
            lemma_items_take_push(b, ib as int);
            assert forall|k: int| 0 <= k < r0.len() implies r0[k] < y by {
                assert(items_set(r0).contains(r0[k] as int));
                if items_set(b.take(ib as int)).contains(r0[k] as int) {
                    lemma_items_take_below(b, ib as int, r0[k] as int);
                }
            }
        }
        result.push(y);
        proof {
            lemma_items_take_push(r0.push(y), r0.len() as int);
            assert(r0.push(y).take(r0.len() as int) =~= r0);
            assert(r0.push(y).take(r0.len() as int + 1) =~= r0.push(y));
            assert(!items_set(b.take(ib as int)).contains(y as int)) by {
                if items_set(b.take(ib as int)).contains(y as int) {
                    lemma_items_take_below(b, ib as int, y as int);
                }
            }
            assert(items_set(sparse_items(result)) =~= sym_diff(items_set(a.take(ia as int)), items_set(b.take(ib + 1))));
            if ib + 1 < b.len() {
                assert(b[ib as int] < b[ib + 1]);
            }
        }
        ib += 1;
    }
    proof {
        lemma_items_full(a);
        lemma_items_full(b);
    }
    result
}


/// Entries above which a column is stored as a dense bitmap.
pub const DENSE_THRESHOLD: usize = 64usize;

/// A boundary column over Z₂: a sorted list of rows, or a packed bitmap.
enum Column {
    /// Strictly increasing row indices.
    Sparse(SparseCol),
    /// Bit `i % 64` of word `i / 64` is row `i`.
    Dense(Vec<u64>),
}

impl Column {
    /// The rows held by the column.
    spec fn rows(&self) -> Set<int> {
        match self {
            Column::Sparse(sv) => items_set(sparse_items(*sv)),
            Column::Dense(w) => dense_set(w@),
        }
    }

    /// Representation invariant: sparse lists are strictly increasing; dense
    /// bitmaps address rows that fit in `u32`.
    spec fn wf(&self) -> bool {
        match self {
            Column::Sparse(sv) => increasing(sparse_items(*sv)),
            Column::Dense(w) => 64 * w@.len() <= 0x1_0000_0000,
        }
    }
}

proof fn lemma_items_bounded(s: Seq<u32>, e: int, k: int)
    requires
        bounded(items_set(s), e),
        0 <= k < s.len(),
    ensures
        (s[k] as int) < e,
{
    assert(items_set(s).contains(s[k] as int));
}

proof fn lemma_dense_words(e: int)
    requires
        0 <= e < 0x1_0000_0000,
    ensures
        e <= 64 * dense_words(e),
        64 * dense_words(e) <= 0x1_0000_0000,
{
}

fn words_needed(num_edges: usize) -> (n: usize)
    requires
        num_edges < u32::MAX,
    ensures
        n == dense_words(num_edges as int),
{
    let n_words = num_edges / 64 + if num_edges % 64 != 0 {
        1
    } else {
        0
    };
    if n_words > 1 {
        n_words
    } else {
        1
    }
}

/// Dense result of a sum, collapsed to the empty sparse column when zero.
fn dense_or_empty(bm: Vec<u64>) -> (c: Column)
    requires
        64 * bm@.len() <= 0x1_0000_0000,
    ensures
        c.wf(),
        c.rows() == dense_set(bm@),
{
    if all_zero(&bm) {
        let e = SparseCol::new();
        proof {
            assert(items_set(sparse_items(e)) =~= dense_set(bm@));
        }
        Column::Sparse(e)
    } else {
        Column::Dense(bm)
    }
}

/// Z₂ sum of two columns.
fn xor_columns(a: Column, b: &Column, num_edges: usize) -> (c: Column)
    requires
        a.wf(),
        b.wf(),
        num_edges < u32::MAX,
        bounded(a.rows(), num_edges as int),
        bounded(b.rows(), num_edges as int),
    ensures
        c.wf(),
        c.rows() == sym_diff(a.rows(), b.rows()),
{
    proof {
        lemma_dense_words(num_edges as int);
    }
    match a {
        Column::Sparse(sa) => {
            match b {
                Column::Sparse(sb) => {
                    let result = merge_sym(sa.as_slice(), sb.as_slice());
                    let items = result.as_slice();
                    if items.len() > DENSE_THRESHOLD {
                        proof {
                            assert forall|k: int| 0 <= k < items@.len() implies (items@[k] as int) < num_edges by {
                                assert(items_set(items@).contains(items@[k] as int));
                            }
                        }
                        let bm = sparse_to_dense(items, num_edges);
                        proof {
                            assert forall|x: int| items_set(items@).contains(x) implies x < 64 * bm@.len() by {}
                            assert(dense_set(bm@) =~= items_set(items@));
                        }
                        Column::Dense(bm)
                    } else {
                        Column::Sparse(result)
                    }
                },
                Column::Dense(db) => {
                    let mut bm = copy_words(db);
                    let need = words_needed(num_edges);
                    ensure_len(&mut bm, need);
                    let items = sa.as_slice();
                    proof {
                        assert forall|k: int| 0 <= k < items@.len() implies (items@[k] as int) < 64 * bm@.len() by {
                            lemma_items_bounded(items@, num_edges as int, k);
                        }
                        assert(dense_set(bm@) =~= dense_set(db@));
                    }
                    toggle_items(&mut bm, items);
                    proof {
                        assert(dense_set(bm@) =~= sym_diff(items_set(items@), dense_set(db@)));
                    }
                    dense_or_empty(bm)
                },
            }
        },
        Column::Dense(da) => {
            let mut da = da;
            match b {
                Column::Sparse(sb) => {
                    let need = words_needed(num_edges);
                    let ghost d0 = da@;
                    ensure_len(&mut da, need);
                    let items = sb.as_slice();
                    proof {
                        assert forall|k: int| 0 <= k < items@.len() implies (items@[k] as int) < 64 * da@.len() by {
                            lemma_items_bounded(items@, num_edges as int, k);
                        }
                        assert(dense_set(da@) =~= dense_set(d0));
                    }
                    toggle_items(&mut da, items);
                    dense_or_empty(da)
                },
                Column::Dense(db) => {
                    let ghost d0 = da@;
                    let need = db.len();
                    ensure_len(&mut da, need);
                    proof {
                        assert(dense_set(da@) =~= dense_set(d0));
                    }
                    xor_dense_into(&mut da, db);
                    dense_or_empty(da)
                },
            }
        },
    }
}

/// Z₂ sum of two columns, with the dense × dense case done word by word
/// directly and every other case handed to [`xor_columns`].
fn xor_columns_opt(a: Column, b: &Column, num_edges: usize) -> (c: Column)
    requires
        a.wf(),
        b.wf(),
        num_edges < u32::MAX,
        bounded(a.rows(), num_edges as int),
        bounded(b.rows(), num_edges as int),
    ensures
        c.wf(),
        c.rows() == sym_diff(a.rows(), b.rows()),
{
    match (a, b) {
        (Column::Dense(da), Column::Dense(db)) => {
            let mut da = da;
            let ghost d0 = da@;
            let need = db.len();
            ensure_len(&mut da, need);
            proof {
                assert(dense_set(da@) =~= dense_set(d0));
            }
            xor_dense_into(&mut da, db);
            dense_or_empty(da)
        },
        (other, b) => xor_columns(other, b, num_edges),
    }
}


/// The selector of column `j` alone.
pub open spec fn unit_sel(n: nat, j: int) -> Seq<bool> {
    Seq::new(n, |i: int| i == j)
}

proof fn lemma_xor_sum_unit(cols: Seq<Set<int>>, j: int)
    requires
        0 <= j < cols.len(),
    ensures
        xor_sum(cols, unit_sel(cols.len(), j)) == cols[j],
    decreases cols.len(),
{
    let last = cols.len() - 1;
    let u = unit_sel(cols.len(), j);
    let ci = cols.drop_last();
    assert(u.drop_last() =~= unit_sel(ci.len(), j) || j == last);
    if j == last {
        let z = u.drop_last();
        lemma_xor_sum_zero(ci, z);
        assert(sym_diff(Set::<int>::empty(), cols.last()) =~= cols.last());
    } else {
        assert(u.drop_last() =~= unit_sel(ci.len(), j));
        lemma_xor_sum_unit(ci, j);
        assert(ci[j] == cols[j]);
    }
}

proof fn lemma_xor_sum_toggle(cols: Seq<Set<int>>, sel: Seq<bool>, j: int)
    requires
        sel.len() == cols.len(),
        0 <= j < cols.len(),
    ensures
        xor_sum(cols, sel.update(j, !sel[j])) == sym_diff(xor_sum(cols, sel), cols[j]),
{
    let u = unit_sel(cols.len(), j);
    lemma_xor_sum_sel_xor(cols, sel, u);
    lemma_xor_sum_unit(cols, j);
    assert(sel_xor(sel, u) =~= sel.update(j, !sel[j]));
}

/// The empty set or a set whose smallest row is one of `pivots`.
pub open spec fn min_is_pivot(s: Set<int>, pivots: Seq<int>) -> bool {
    (forall|x: int| !s.contains(x)) || exists|j: int| 0 <= j < pivots.len() && is_min_of(#[trigger] pivots[j], s)
}

/// Columns in echelon form: each column's smallest row is its pivot, and
/// pivots are pairwise distinct.
pub open spec fn echelon(rows: Seq<Set<int>>, pivots: Seq<int>) -> bool {
    &&& pivots.len() == rows.len()
    &&& forall|i: int| 0 <= i < rows.len() ==> is_min_of(#[trigger] pivots[i], rows[i])
    &&& forall|i: int, j: int| 0 <= i < j < pivots.len() ==> #[trigger] pivots[i] != #[trigger] pivots[j]
}

proof fn lemma_echelon_sum_min(rows: Seq<Set<int>>, pivots: Seq<int>, sel: Seq<bool>)
    requires
        echelon(rows, pivots),
        sel.len() == rows.len(),
    ensures
        min_is_pivot(xor_sum(rows, sel), pivots),
    decreases rows.len(),
{
    if rows.len() > 0 {
        let ri = rows.drop_last();
        let pi = pivots.drop_last();
        let si = sel.drop_last();
        let last = rows.len() - 1;
        assert(echelon(ri, pi)) by {
            assert forall|i: int| 0 <= i < ri.len() implies is_min_of(#[trigger] pi[i], ri[i]) by {
                assert(pi[i] == pivots[i] && ri[i] == rows[i]);
            }
            assert forall|i: int, j: int| 0 <= i < j < pi.len() implies #[trigger] pi[i] != #[trigger] pi[j] by {
                assert(pi[i] == pivots[i] && pi[j] == pivots[j]);
            }
        }
        lemma_echelon_sum_min(ri, pi, si);
        let s0 = xor_sum(ri, si);
        let q = pivots[last];
        let rl = rows[last];
        assert(is_min_of(q, rl));
        if sel.last() {
            let s1 = sym_diff(s0, rl);
            if forall|x: int| !s0.contains(x) {
                assert(is_min_of(pivots[last], s1));
            } else {
                let j = choose|j: int| 0 <= j < pi.len() && is_min_of(#[trigger] pi[j], s0);
                let m = pi[j];
                assert(m == pivots[j]);
                assert(m != q);
                if q < m {
                    assert(!s0.contains(q));
                    assert(is_min_of(pivots[last], s1));
                } else {
                    assert(!rl.contains(m));
                    assert(is_min_of(pivots[j], s1));
                }
            }
        } else {
            if !(forall|x: int| !s0.contains(x)) {
                let j = choose|j: int| 0 <= j < pi.len() && is_min_of(#[trigger] pi[j], s0);
                assert(pivots[j] == pi[j]);
            }
        }
    }
}

proof fn lemma_echelon_not_in_span(rows: Seq<Set<int>>, pivots: Seq<int>, col: Set<int>, p: int)
    requires
        echelon(rows, pivots),
        is_min_of(p, col),
        forall|j: int| 0 <= j < pivots.len() ==> pivots[j] != p,
    ensures
        !in_col_span(col, rows),
{
    if in_col_span(col, rows) {
        let sel = choose|sel: Seq<bool>| sel.len() == rows.len() && #[trigger] xor_sum(rows, sel) == col;
        lemma_echelon_sum_min(rows, pivots, sel);
        let j = choose|j: int| 0 <= j < pivots.len() && is_min_of(#[trigger] pivots[j], col);
        assert(pivots[j] <= p && p <= pivots[j]);
    }
}

/// Number of occupied pivot slots among the first `k`.
pub open spec fn count_used(pr: Seq<u32>, k: int) -> nat
    decreases k,
{
    if k <= 0 {
        0
    } else {
        count_used(pr, k - 1) + if pr[k - 1] != u32::MAX {
            1nat
        } else {
            0nat
        }
    }
}

proof fn lemma_count_used_bound(pr: Seq<u32>, k: int)
    requires
        0 <= k,
    ensures
        count_used(pr, k) <= k,
    decreases k,
{
    if k > 0 {
        lemma_count_used_bound(pr, k - 1);
    }
}

proof fn lemma_count_used_set(pr: Seq<u32>, k: int, p: int, v: u32)
    requires
        0 <= p < k <= pr.len(),
        pr[p] == u32::MAX,
        v != u32::MAX,
    ensures
        count_used(pr.update(p, v), k) == count_used(pr, k) + 1,
    decreases k,
{
    if k - 1 == p {
        lemma_count_used_same(pr, pr.update(p, v), k - 1);
    } else {
        lemma_count_used_set(pr, k - 1, p, v);
    }
}

proof fn lemma_count_used_same(a: Seq<u32>, b: Seq<u32>, k: int)
    requires
        0 <= k,
        forall|i: int| 0 <= i < k ==> (a[i] != u32::MAX) == (b[i] != u32::MAX),
    ensures
        count_used(a, k) == count_used(b, k),
    decreases k,
{
    if k > 0 {
        lemma_count_used_same(a, b, k - 1);
    }
}

proof fn lemma_count_used_extend(a: Seq<u32>, k: int, n: int)
    requires
        0 <= k <= n,
        forall|i: int| k <= i < n ==> a[i] == u32::MAX,
    ensures
        count_used(a, n) == count_used(a, k),
    decreases n,
{
    if n > k {
        lemma_count_used_extend(a, k, n - 1);
    }
}

/// The boundary of a triangle with sides `e1`, `e2`, `e3`: their Z₂ sum.
pub open spec fn triangle_boundary(e1: u32, e2: u32, e3: u32) -> Set<int> {
    sym_diff(sym_diff(set![e1 as int], set![e2 as int]), set![e3 as int])
}

/// Incremental echelon basis of im ∂₂: each added triangle boundary is
/// reduced against the basis and kept when it is independent.
pub struct IncrementalD2 {
    base_cols: Vec<Column>,
    pivot_row: Vec<u32>,
    num_edges: usize,
    rank: usize,
    pivots: Ghost<Seq<int>>,
    added: Ghost<Seq<Set<int>>>,
}

impl IncrementalD2 {
    /// Rows of each basis column.
    pub closed spec fn basis(&self) -> Seq<Set<int>> {
        Seq::new(self.base_cols@.len(), |i: int| self.base_cols@[i].rows())
    }

    /// Boundaries of all triangles added so far.
    pub closed spec fn added_columns(&self) -> Seq<Set<int>> {
        self.added@
    }

    /// Number of registered edges (rows).
    pub closed spec fn edge_count(&self) -> nat {
        self.num_edges as nat
    }

    /// Number of basis columns.
    pub closed spec fn spec_rank(&self) -> nat {
        self.rank as nat
    }

    /// The basis is in echelon form, spans exactly the added boundaries, and
    /// the pivot table points each pivot row at its column.
    pub closed spec fn inv(&self) -> bool {
        let rows = self.basis();
        let pr = self.pivot_row@;
        &&& self.rank == self.base_cols@.len()
        &&& self.num_edges == pr.len()
        &&& self.num_edges < u32::MAX
        &&& self.rank == count_used(pr, pr.len() as int)
        &&& echelon(rows, self.pivots@)
        &&& forall|i: int|
            0 <= i < self.rank ==> (#[trigger] self.base_cols@[i]).wf() && bounded(
                self.base_cols@[i].rows(),
                self.num_edges as int,
            )
        &&& forall|i: int|
            0 <= i < self.rank ==> 0 <= #[trigger] self.pivots@[i] < pr.len() && pr[self.pivots@[i]] == i
        &&& forall|p: int|
            0 <= p < pr.len() && #[trigger] pr[p] != u32::MAX ==> pr[p] < self.rank && self.pivots@[pr[p] as int]
                == p
        &&& forall|k: int| 0 <= k < self.added@.len() ==> bounded(#[trigger] self.added@[k], self.num_edges as int)
        &&& spans_within(rows, self.added@)
        &&& spans_within(self.added@, rows)
    }

    /// An empty basis over no edges.
    pub fn new() -> (d: Self)
        ensures
            d.inv(),
            d.edge_count() == 0,
            d.spec_rank() == 0,
            d.added_columns() == Seq::<Set<int>>::empty(),
    {
        let d = IncrementalD2 {
            base_cols: Vec::new(),
            pivot_row: Vec::new(),
            num_edges: 0,
            rank: 0,
            pivots: Ghost(Seq::empty()),
            added: Ghost(Seq::empty()),
        };
        proof {
            assert(d.basis() =~= Seq::<Set<int>>::empty());
        }
        d
    }

    /// Makes edge `edge_idx` (and every smaller index) a row of the matrix.
    pub fn register_edge(&mut self, edge_idx: u32)
        requires
            old(self).inv(),
            edge_idx < u32::MAX - 1,
        ensures
            final(self).inv(),
            final(self).edge_count() == if edge_idx as int + 1 > old(self).edge_count() {
                edge_idx as nat + 1
            } else {
                old(self).edge_count()
            },
            final(self).spec_rank() == old(self).spec_rank(),
            final(self).basis() == old(self).basis(),
            final(self).added_columns() == old(self).added_columns(),
    {
        let idx = edge_idx as usize;
        let ghost pr0 = self.pivot_row@;
        let ghost rows0 = self.basis();
        if idx >= self.pivot_row.len() {
            self.pivot_row.resize(idx + 1, u32::MAX);
            self.num_edges = idx + 1;
        }
        proof {
            let pr = self.pivot_row@;
            assert(rows0 =~= self.basis());
            if idx >= pr0.len() {
                assert forall|i: int| pr0.len() <= i < pr.len() implies pr[i] == u32::MAX by {}
                assert forall|i: int| 0 <= i < pr0.len() implies pr[i] == pr0[i] by {
                    assert(pr.subrange(0, pr0.len() as int) == pr0);
                    assert(pr.subrange(0, pr0.len() as int)[i] == pr[i]);
                }
                lemma_count_used_extend(pr, pr0.len() as int, pr.len() as int);
                lemma_count_used_same(pr0, pr, pr0.len() as int);
                assert forall|p: int| 0 <= p < pr.len() && #[trigger] pr[p] != u32::MAX implies pr[p] < self.rank
                    && self.pivots@[pr[p] as int] == p by {
                    assert(p < pr0.len());
                    assert(pr[p] == pr0[p]);
                }
                assert forall|i: int| 0 <= i < self.rank implies 0 <= #[trigger] self.pivots@[i] < pr.len()
                    && pr[self.pivots@[i]] == i by {
                    assert(pr[self.pivots@[i]] == pr0[self.pivots@[i]]);
                }
                assert forall|i: int| 0 <= i < self.rank implies (#[trigger] self.base_cols@[i]).wf() && bounded(
                    self.base_cols@[i].rows(),
                    self.num_edges as int,
                ) by {}
                assert forall|k: int| 0 <= k < self.added@.len() implies bounded(
                    #[trigger] self.added@[k],
                    self.num_edges as int,
                ) by {}
            }
        }
    }

    /// Number of basis columns: the Z₂ rank of the added boundaries.
    pub fn rank(&self) -> (r: usize)
        ensures
            r == self.spec_rank(),
    {
        self.rank
    }
}


/// The sorted sparse column of a triangle boundary; repeated sides cancel.
fn boundary_column(e1: u32, e2: u32, e3: u32) -> (c: Column)
    ensures
        c.wf(),
        c.rows() == triangle_boundary(e1, e2, e3),
{
    let mut a = e1;
    let mut b = e2;
    let mut c = e3;
    if a > b {
        let t = a;
        a = b;
        b = t;
    }
    if b > c {
        let t = b;
        b = c;
        c = t;
    }
    if a > b {
        let t = a;
        a = b;
        b = t;
    }
    proof {
        assert(triangle_boundary(a, b, c) =~= triangle_boundary(e1, e2, e3));
    }
    let mut sv = SparseCol::new();
    if a == b && b == c {
        sv.push(a);
    } else if a == b {
        sv.push(c);
    } else if b == c {
        sv.push(a);
    } else {
        sv.push(a);
        sv.push(b);
        sv.push(c);
    }
    let col = Column::Sparse(sv);
    proof {
        let it = sparse_items(sv);
        assert forall|x: int| #[trigger] items_set(it).contains(x) == triangle_boundary(a, b, c).contains(x) by {
            if it.len() == 1 {
                if items_set(it).contains(x) {
                    let k = choose|k: int| 0 <= k < it.len() && it[k] as int == x;
                }
                assert(it[0] as int == x ==> items_set(it).contains(x));
            } else {
                if items_set(it).contains(x) {
                    let k = choose|k: int| 0 <= k < it.len() && it[k] as int == x;
                }
                assert(it[0] as int == x ==> items_set(it).contains(x));
                assert(it[1] as int == x ==> items_set(it).contains(x));
                assert(it[2] as int == x ==> items_set(it).contains(x));
            }
        }
        assert(items_set(it) =~= triangle_boundary(e1, e2, e3));
    }
    col
}

/// Smallest row of a column, if any.
fn column_pivot(col: &Column) -> (r: Option<u32>)
    requires
        col.wf(),
    ensures
        r matches Some(p) ==> is_min_of(p as int, col.rows()),
        r is None ==> forall|x: int| !col.rows().contains(x),
{
    match col {
        Column::Sparse(sv) => {
            let items = sv.as_slice();
            if items.len() > 0 {
                proof {
                    assert(items_set(items@).contains(items@[0] as int));
                    assert forall|x: int| items_set(items@).contains(x) implies items@[0] <= x by {
                        let k = choose|k: int| 0 <= k < items@.len() && items@[k] as int == x;
                        if k > 0 {
                            assert(items@[0] < items@[k]);
                        }
                    }
                }
                Some(items[0])
            } else {
                proof {
                    assert forall|x: int| !items_set(items@).contains(x) by {
                        if items_set(items@).contains(x) {
                            let k = choose|k: int| 0 <= k < items@.len() && items@[k] as int == x;
                        }
                    }
                }
                None
            }
        },
        Column::Dense(bm) => first_set_bit(bm),
    }
}

impl IncrementalD2 {
    /// Adds the boundary of a triangle with sides `e1`, `e2`, `e3` (edge rows);
    /// `true` when it is independent of the boundaries added before, which
    /// then raises the rank by one.
    pub fn add_triangle(&mut self, e1: u32, e2: u32, e3: u32) -> (independent: bool)
        requires
            old(self).inv(),
            (e1 as int) < old(self).edge_count(),
            (e2 as int) < old(self).edge_count(),
            (e3 as int) < old(self).edge_count(),
        ensures
            final(self).inv(),
            final(self).edge_count() == old(self).edge_count(),
            final(self).added_columns() == old(self).added_columns().push(triangle_boundary(e1, e2, e3)),
            independent == !in_col_span(triangle_boundary(e1, e2, e3), old(self).basis()),
            final(self).spec_rank() == old(self).spec_rank() + if independent {
                1int
            } else {
                0int
            },
    {
        let mut col = boundary_column(e1, e2, e3);
        let ghost t = col.rows();
        let ghost rows = self.basis();
        let ghost n = self.num_edges as int;
        let ghost mut sel: Seq<bool> = Seq::new(rows.len(), |i: int| false);
        let ghost mut floor: int = 0;
        proof {
            lemma_xor_sum_zero(rows, sel);
            assert(col.rows() =~= sym_diff(t, xor_sum(rows, sel)));
            assert(bounded(t, n));
        }
        loop
            invariant
                self.inv(),
                *self == *old(self),
                rows == self.basis(),
                n == self.num_edges,
                t == triangle_boundary(e1, e2, e3),
                bounded(t, n),
                col.wf(),
                bounded(col.rows(), n),
                0 <= floor <= n,
                forall|x: int| col.rows().contains(x) ==> x >= floor,
                sel.len() == rows.len(),
                col.rows() == sym_diff(t, xor_sum(rows, sel)),
            decreases n - floor,
        {
            let pivot = column_pivot(&col);
            match pivot {
                None => {
                    proof {
                        let xs = xor_sum(rows, sel);
                        assert forall|x: int| t.contains(x) == xs.contains(x) by {
                            assert(!col.rows().contains(x));
                            assert(sym_diff(t, xs).contains(x) == (t.contains(x) != xs.contains(x)));
                        }
                        assert(t =~= xs);
                        assert(in_col_span(t, rows));
                        let added0 = self.added@;
                        lemma_spans_within_push(rows, added0, t);
                        self.added@ = added0.push(t);
                        assert forall|k: int| 0 <= k < self.added@.len() implies in_col_span(
                            #[trigger] self.added@[k],
                            rows,
                        ) by {
                            if k < added0.len() {
                                assert(self.added@[k] == added0[k]);
                            }
                        }
                        assert forall|k: int| 0 <= k < self.added@.len() implies bounded(
                            #[trigger] self.added@[k],
                            self.num_edges as int,
                        ) by {
                            if k < added0.len() {
                                assert(self.added@[k] == added0[k]);
                            }
                        }
                    }
                    return false;
                },
                Some(p) => {
                    let pu = p as usize;
                    proof {
                        assert(col.rows().contains(p as int));
                        assert(pu < self.pivot_row@.len());
                    }
                    let slot = self.pivot_row[pu];
                    if slot == u32::MAX {
                        let col_idx = self.base_cols.len();
                        let ghost pr0 = self.pivot_row@;
                        let ghost piv0 = self.pivots@;
                        let ghost added0 = self.added@;
                        let ghost x = xor_sum(rows, sel);
                        let ghost cr = col.rows();
                        proof {
                            lemma_count_used_bound(pr0, pr0.len() as int);
                            lemma_count_used_set(pr0, pr0.len() as int, pu as int, col_idx as u32);
                            assert forall|j: int| 0 <= j < piv0.len() implies piv0[j] != p as int by {
                                if piv0[j] == p as int {
                                    assert(pr0[piv0[j]] == j);
                                }
                            }
                            lemma_echelon_not_in_span(rows, piv0, cr, p as int);
                            if in_col_span(t, rows) {
                                assert(in_col_span(x, rows));
                                lemma_span_xor(t, x, rows);
                            }
                        }
                        self.pivot_row.set(pu, col_idx as u32);
                        self.base_cols.push(col);
                        self.rank = self.rank + 1;
                        proof {
                            self.pivots@ = piv0.push(p as int);
                            self.added@ = added0.push(t);
                            let rows1 = self.basis();
                            assert(rows1 =~= rows.push(cr)) by {
                                assert forall|i: int| 0 <= i < rows1.len() implies rows1[i] == rows.push(cr)[i] by {
                                    if i < rows.len() {
                                        assert(self.base_cols@[i] == old(self).base_cols@[i]);
                                    }
                                }
                            }
                            let pr = self.pivot_row@;
                            assert(echelon(rows1, self.pivots@)) by {
                                assert forall|i: int| 0 <= i < rows1.len() implies is_min_of(
                                    #[trigger] self.pivots@[i],
                                    rows1[i],
                                ) by {
                                    if i < rows.len() {
                                        assert(self.pivots@[i] == piv0[i]);
                                    }
                                }
                                assert forall|i: int, j: int| 0 <= i < j < self.pivots@.len() implies #[trigger] self.pivots@[i]
                                    != #[trigger] self.pivots@[j] by {
                                    if j < piv0.len() {
                                        assert(self.pivots@[i] == piv0[i] && self.pivots@[j] == piv0[j]);
                                    } else {
                                        assert(self.pivots@[i] == piv0[i]);
                                    }
                                }
                            }
                            assert forall|i: int| 0 <= i < self.rank implies (#[trigger] self.base_cols@[i]).wf()
                                && bounded(self.base_cols@[i].rows(), self.num_edges as int) by {
                                if i < rows.len() {
                                    assert(self.base_cols@[i] == old(self).base_cols@[i]);
                                }
                            }
                            assert forall|i: int| 0 <= i < self.rank implies 0 <= #[trigger] self.pivots@[i] < pr.len()
                                && pr[self.pivots@[i]] == i by {
                                if i < rows.len() {
                                    assert(self.pivots@[i] == piv0[i]);
                                    assert(piv0[i] != p as int);
                                }
                            }
                            assert forall|q: int| 0 <= q < pr.len() && #[trigger] pr[q] != u32::MAX implies pr[q] < self.rank
                                && self.pivots@[pr[q] as int] == q by {
                                if q != pu as int {
                                    assert(pr[q] == pr0[q]);
                                }
                            }
                            assert forall|k: int| 0 <= k < self.added@.len() implies bounded(
                                #[trigger] self.added@[k],
                                self.num_edges as int,
                            ) by {
                                if k < added0.len() {
                                    assert(self.added@[k] == added0[k]);
                                }
                            }
                            // basis within added
                            assert(in_col_span(x, rows));
                            lemma_span_trans(x, rows, added0);
                            lemma_span_push(x, added0, t);
                            lemma_span_last(added0, t);
                            lemma_span_xor(t, x, self.added@);
                            lemma_spans_within_push(rows, added0, t);
                            assert forall|i: int| 0 <= i < rows1.len() implies in_col_span(
                                #[trigger] rows1[i],
                                self.added@,
                            ) by {
                                if i < rows.len() {
                                    assert(rows1[i] == rows[i]);
                                } else {
                                    assert(rows1[i] == cr);
                                }
                            }
                            // added within basis
                            lemma_spans_within_push(added0, rows, cr);
                            lemma_span_last(rows, cr);
                            lemma_span_push(x, rows, cr);
                            lemma_span_xor(cr, x, rows.push(cr));
                            assert(sym_diff(cr, x) =~= t);
                            assert forall|k: int| 0 <= k < self.added@.len() implies in_col_span(
                                #[trigger] self.added@[k],
                                rows1,
                            ) by {
                                if k < added0.len() {
                                    assert(self.added@[k] == added0[k]);
                                }
                            }
                        }
                        return true;
                    }
                    let base_idx = slot as usize;
                    proof {
                        assert(base_idx < self.rank);
                        assert(self.pivots@[base_idx as int] == p as int);
                        assert(is_min_of(p as int, rows[base_idx as int]));
                        assert(self.base_cols@[base_idx as int].rows() == rows[base_idx as int]);
                    }
                    let ghost before = col.rows();
                    col = xor_columns_opt(col, &self.base_cols[base_idx], self.num_edges);
                    proof {
                        let r = rows[base_idx as int];
                        lemma_xor_sum_toggle(rows, sel, base_idx as int);
                        let sel1 = sel.update(base_idx as int, !sel[base_idx as int]);
                        assert(col.rows() =~= sym_diff(t, xor_sum(rows, sel1)));
                        sel = sel1;
                        assert forall|x: int| col.rows().contains(x) implies x >= p + 1 by {
                            assert(before.contains(x) != r.contains(x));
                        }
                        floor = p + 1;
                    }
                },
            }
        }
    }
}


proof fn lemma_echelon_nonzero(rows: Seq<Set<int>>, pivots: Seq<int>, sel: Seq<bool>, j: int)
    requires
        echelon(rows, pivots),
        sel.len() == rows.len(),
        0 <= j < sel.len(),
        sel[j],
    ensures
        exists|x: int| xor_sum(rows, sel).contains(x),
    decreases rows.len(),
{
    let ri = rows.drop_last();
    let pi = pivots.drop_last();
    let si = sel.drop_last();
    let last = rows.len() - 1;
    assert(echelon(ri, pi)) by {
        assert forall|i: int| 0 <= i < ri.len() implies is_min_of(#[trigger] pi[i], ri[i]) by {
            assert(pi[i] == pivots[i] && ri[i] == rows[i]);
        }
        assert forall|i: int, k: int| 0 <= i < k < pi.len() implies #[trigger] pi[i] != #[trigger] pi[k] by {
            assert(pi[i] == pivots[i] && pi[k] == pivots[k]);
        }
    }
    let s0 = xor_sum(ri, si);
    let q = pivots[last];
    let rl = rows[last];
    assert(is_min_of(q, rl));
    if sel.last() {
        assert(xor_sum(rows, sel) == sym_diff(s0, rl));
        lemma_echelon_sum_min(ri, pi, si);
        if forall|x: int| !s0.contains(x) {
            assert(xor_sum(rows, sel).contains(q));
        } else {
            let k = choose|k: int| 0 <= k < pi.len() && is_min_of(#[trigger] pi[k], s0);
            let m = pi[k];
            assert(m == pivots[k]);
            if q < m {
                assert(!s0.contains(q));
                assert(xor_sum(rows, sel).contains(q));
            } else {
                assert(m != q);
                assert(!rl.contains(m));
                assert(xor_sum(rows, sel).contains(m));
            }
        }
    } else {
        assert(xor_sum(rows, sel) == s0);
        assert(j < last);
        assert(si[j]);
        lemma_echelon_nonzero(ri, pi, si, j);
        let x = choose|x: int| s0.contains(x);
        assert(xor_sum(rows, sel).contains(x));
    }
}

impl IncrementalD2 {
    /// The basis spans exactly the added boundaries, has one column per unit
    /// of rank, and is independent: no non-empty selection of its columns
    /// sums to zero.
    pub proof fn lemma_basis_exact(&self)
        requires
            self.inv(),
        ensures
            self.basis().len() == self.spec_rank(),
            spans_within(self.basis(), self.added_columns()),
            spans_within(self.added_columns(), self.basis()),
            forall|sel: Seq<bool>, j: int|
                sel.len() == self.basis().len() && 0 <= j < sel.len() && #[trigger] sel[j] ==> exists|x: int|
                    #[trigger] xor_sum(self.basis(), sel).contains(x),
    {
        assert forall|sel: Seq<bool>, j: int|
            sel.len() == self.basis().len() && 0 <= j < sel.len() && #[trigger] sel[j] implies exists|x: int|
                #[trigger] xor_sum(self.basis(), sel).contains(x) by {
            lemma_echelon_nonzero(self.basis(), self.pivots@, sel, j);
        }
    }
}

/// A column as a row of `w` booleans.
pub open spec fn set_row(s: Set<int>, w: nat) -> Seq<bool> {
    Seq::new(w, |j: int| s.contains(j))
}

/// The columns as the rows of a matrix of width `w`.
pub open spec fn col_rows(cols: Seq<Set<int>>, w: nat) -> Seq<Seq<bool>> {
    Seq::new(cols.len(), |i: int| set_row(cols[i], w))
}

/// The Z₂ sum of selected columns, as a row, is the combination of the
/// selected rows.
proof fn lemma_xor_sum_as_lin_comb(cols: Seq<Set<int>>, sel: Seq<bool>, w: nat)
    requires
        sel.len() == cols.len(),
    ensures
        set_row(xor_sum(cols, sel), w) == lin_comb(sel, col_rows(cols, w), w),
    decreases cols.len(),
{
    let rows = col_rows(cols, w);
    if cols.len() == 0 {
        assert forall|j: int| 0 <= j < w implies #[trigger] lin_comb(sel, rows, w)[j] == set_row(
            xor_sum(cols, sel),
            w,
        )[j] by {}
        assert(set_row(xor_sum(cols, sel), w) =~= lin_comb(sel, rows, w));
    } else {
        let n = cols.len() as int;
        let ci = cols.drop_last();
        let si = sel.drop_last();
        lemma_xor_sum_as_lin_comb(ci, si, w);
        let ri = col_rows(ci, w);
        assert forall|j: int| 0 <= j < w implies #[trigger] lin_comb(sel, rows, w)[j] == set_row(
            xor_sum(cols, sel),
            w,
        )[j] by {
            lemma_dot_prefix(sel, rows, si, ri, j, n - 1);
            assert(lin_comb(si, ri, w)[j] == dot(si, ri, j, n - 1));
            assert(set_row(xor_sum(ci, si), w)[j] == xor_sum(ci, si).contains(j));
        }
        assert(set_row(xor_sum(cols, sel), w) =~= lin_comb(sel, rows, w));
    }
}

proof fn lemma_xor_sum_bounded(cols: Seq<Set<int>>, sel: Seq<bool>, e: int)
    requires
        forall|k: int| 0 <= k < cols.len() ==> bounded(#[trigger] cols[k], e),
    ensures
        bounded(xor_sum(cols, sel), e),
    decreases cols.len(),
{
    if cols.len() > 0 {
        lemma_xor_sum_bounded(cols.drop_last(), sel.drop_last(), e);
        assert(bounded(cols[cols.len() - 1], e));
    }
}

impl IncrementalD2 {
    /// The rank the basis reports is the Z₂ rank of the matrix whose rows are
    /// the added triangle boundaries (over the registered edges).
    pub proof fn lemma_rank_is_gf2_rank(&self, r: nat)
        requires
            self.inv(),
            is_gf2_rank(col_rows(self.added_columns(), self.edge_count()), self.edge_count(), r),
        ensures
            r == self.spec_rank(),
    {
        self.lemma_basis_exact();
        let w = self.edge_count();
        let basis = self.basis();
        let added = self.added_columns();
        let k = basis.len();
        let rows = col_rows(added, w);
        lemma_rank_span_size(rows, w, r);
        let dom = bool_seqs(k);
        lemma_bool_seqs_len(k);
        let f = |sel: Seq<bool>| set_row(xor_sum(basis, sel), w);
        assert forall|i: int| 0 <= i < k implies bounded(#[trigger] basis[i], w as int) by {}
        assert forall|i: int| 0 <= i < added.len() implies bounded(#[trigger] added[i], w as int) by {}
        assert(vstd::relations::injective_on(f, dom)) by {
            assert forall|x: Seq<bool>, y: Seq<bool>| dom.contains(x) && dom.contains(y) && #[trigger] f(x) == #[trigger] f(
                y,
            ) implies x == y by {
                let a = xor_sum(basis, x);
                let b = xor_sum(basis, y);
                lemma_xor_sum_bounded(basis, x, w as int);
                lemma_xor_sum_bounded(basis, y, w as int);
                assert(a =~= b) by {
                    assert forall|q: int| a.contains(q) == b.contains(q) by {
                        if 0 <= q < w {
                            assert(f(x)[q] == f(y)[q]);
                        }
                    }
                }
                lemma_xor_sum_sel_xor(basis, x, y);
                assert(sym_diff(a, b) =~= Set::<int>::empty());
                assert forall|j: int| 0 <= j < k implies x[j] == y[j] by {
                    let z = sel_xor(x, y);
                    if z[j] {
                        let q = choose|q: int| #[trigger] xor_sum(basis, z).contains(q);
                    }
                }
                assert(x =~= y);
            }
        }
        let img = dom.map(f);
        vstd::set_lib::lemma_map_size(dom, img, f);
        assert(img =~= span_set(rows, w)) by {
            assert forall|v: Seq<bool>| img.contains(v) implies #[trigger] span_set(rows, w).contains(v) by {
                let sel = choose|sel: Seq<bool>| dom.contains(sel) && f(sel) == v;
                let x = xor_sum(basis, sel);
                assert(in_col_span(x, basis));
                lemma_span_trans(x, basis, added);
                let c = choose|c: Seq<bool>| c.len() == added.len() && #[trigger] xor_sum(added, c) == x;
                lemma_xor_sum_as_lin_comb(added, c, w);
            }
            assert forall|v: Seq<bool>| #[trigger] span_set(rows, w).contains(v) implies img.contains(v) by {
                let c = choose|c: Seq<bool>| c.len() == rows.len() && #[trigger] lin_comb(c, rows, w) == v;
                lemma_xor_sum_as_lin_comb(added, c, w);
                let x = xor_sum(added, c);
                assert(in_col_span(x, added));
                lemma_span_trans(x, added, basis);
                let sel = choose|sel: Seq<bool>| sel.len() == basis.len() && #[trigger] xor_sum(basis, sel) == x;
                assert(dom.contains(sel));
                assert(f(sel) == v);
            }
        }
        if r < k {
            lemma_two_pow_strict(r, k);
        } else if r > k {
            lemma_two_pow_strict(k, r);
        }
    }
}

/// Key of an undirected edge: smaller raw identifier in the high half.
pub open spec fn key_of(a: u64, b: u64) -> u128 {
    ((a as u128) << 64u128) | (b as u128)
}

proof fn lemma_key_order(a: u64, b: u64, c: u64, d: u64)
    ensures
        (key_of(a, b) < key_of(c, d)) == (a < c || (a == c && b < d)),
        (key_of(a, b) == key_of(c, d)) == (a == c && b == d),
{
    assert((key_of(a, b) < key_of(c, d)) == (a < c || (a == c && b < d))) by (bit_vector);
    assert((key_of(a, b) == key_of(c, d)) == (a == c && b == d)) by (bit_vector);
}

/// The endpoints of an edge as raw identifiers, smaller first.
pub open spec fn canon(u: NodeId, v: NodeId) -> (u64, u64) {
    if u.raw() <= v.raw() {
        (u.raw(), v.raw())
    } else {
        (v.raw(), u.raw())
    }
}

fn edge_key(u: NodeId, v: NodeId) -> (k: u128)
    ensures
        k == key_of(canon(u, v).0, canon(u, v).1),
{
    let (a, b) = if u.get() <= v.get() {
        (u.get(), v.get())
    } else {
        (v.get(), u.get())
    };
    ((a as u128) << 64u128) | (b as u128)
}

/// Operations between checkpoint sweeps.
pub const CHECKPOINT_INTERVAL: usize = 1_000_000usize;

/// Incremental H¹ state: union-find for rank ∂₁, echelon basis for rank ∂₂,
/// and a sorted edge registry.
pub struct IncrementalH1State {
    uf: PersistentUnionFind,
    d2: IncrementalD2,
    edge_map: Vec<(u128, u32)>,
    num_edges: usize,
    ops_since_checkpoint: usize,
    edges: Ghost<Seq<(u64, u64)>>,
}

impl IncrementalH1State {
    /// Registered edges, by edge id, as (smaller, larger) raw identifiers.
    pub closed spec fn edge_list(&self) -> Seq<(u64, u64)> {
        self.edges@
    }

    /// The union-find over nodes.
    pub closed spec fn forest(&self) -> PersistentUnionFind {
        self.uf
    }

    /// The boundary basis.
    pub closed spec fn boundaries(&self) -> IncrementalD2 {
        self.d2
    }

    /// Registered edges as pairs of node indices.
    pub closed spec fn edge_pairs(&self) -> Seq<(int, int)> {
        Seq::new(self.edges@.len(), |k: int| (self.edges@[k].0 as int, self.edges@[k].1 as int))
    }

    /// Registry invariant: one sorted entry per edge id, keyed by its
    /// endpoints, both ranks consistent with the edge count, and the
    /// union-find components those of the registered edges.
    pub closed spec fn inv(&self) -> bool {
        let m = self.edge_map@;
        let es = self.edges@;
        &&& self.uf.inv()
        &&& self.d2.inv()
        &&& self.num_edges == es.len()
        &&& self.d2.edge_count() == self.num_edges
        &&& self.num_edges < u32::MAX - 2
        &&& self.ops_since_checkpoint < CHECKPOINT_INTERVAL
        &&& m.len() == es.len()
        &&& forall|i: int, j: int| 0 <= i < j < m.len() ==> (#[trigger] m[i]).0 < (#[trigger] m[j]).0
        &&& forall|j: int|
            0 <= j < m.len() ==> (#[trigger] m[j]).1 < es.len() && m[j].0 == key_of(
                es[m[j].1 as int].0,
                es[m[j].1 as int].1,
            )
        &&& forall|k: int| 0 <= k < es.len() ==> m.contains((key_of(#[trigger] es[k].0, es[k].1), k as u32))
        &&& forall|k: int| 0 <= k < es.len() ==> (#[trigger] es[k]).0 <= es[k].1
        &&& pairs_within(self.uf.node_count(), self.edge_pairs())
        &&& represents(self.uf.node_count(), self.edge_pairs(), self.uf.roots())
    }

    /// An empty state.
    pub fn new() -> (s: Self)
        ensures
            s.inv(),
            s.edge_list() == Seq::<(u64, u64)>::empty(),
            s.forest().node_count() == 0,
    {
        IncrementalH1State {
            uf: PersistentUnionFind::new(),
            d2: IncrementalD2::new(),
            edge_map: Vec::new(),
            num_edges: 0,
            ops_since_checkpoint: 0,
            edges: Ghost(Seq::empty()),
        }
    }

    /// Adds a node to the union-find.
    pub fn add_node(&mut self)
        requires
            old(self).inv(),
            old(self).forest().node_count() + 1 < u32::MAX,
        ensures
            final(self).inv(),
            final(self).edge_list() == old(self).edge_list(),
            final(self).boundaries() == old(self).boundaries(),
            final(self).forest().node_count() == old(self).forest().node_count() + 1,
            final(self).forest().component_count() == old(self).forest().component_count() + 1,
            final(self).forest().roots() == old(self).forest().roots().push(
                old(self).forest().node_count() as int,
            ),
    {
        let ghost n = self.uf.node_count();
        let ghost pairs = self.edge_pairs();
        let ghost r0 = self.uf.roots();
        proof {
            self.uf.lemma_roots();
            lemma_comp_labels_extend(n, pairs);
        }
        self.uf.add_node();
        proof {
            self.uf.lemma_roots();
            let r1 = self.uf.roots();
            assert(pairs_within(n + 1, pairs)) by {
                assert forall|k: int| 0 <= k < pairs.len() implies 0 <= (#[trigger] pairs[k]).0 < n + 1 && 0
                    <= pairs[k].1 < n + 1 by {}
            }
            assert forall|x: int, y: int| 0 <= x < n + 1 && 0 <= y < n + 1 implies (#[trigger] r1[x] == #[trigger] r1[y])
                == (crate::cohomology::comp_labels(n + 1, pairs)[x] == crate::cohomology::comp_labels(n + 1, pairs)[y]) by {
                if x < n && y < n {
                    assert(r1[x] == r0[x] && r1[y] == r0[y]);
                } else if x < n {
                    assert(r1[x] == r0[x]);
                } else if y < n {
                    assert(r1[y] == r0[y]);
                }
            }
        }
    }

    /// Position of `key` in the registry: found, or where it would go.
    fn search(&self, key: u128) -> (r: (bool, usize))
        requires
            self.inv(),
        ensures
            r.1 <= self.edge_map@.len(),
            forall|j: int| 0 <= j < r.1 ==> (#[trigger] self.edge_map@[j]).0 < key,
            forall|j: int| r.1 < j < self.edge_map@.len() ==> (#[trigger] self.edge_map@[j]).0 > key,
            r.0 == (r.1 < self.edge_map@.len() && self.edge_map@[r.1 as int].0 == key),
            !r.0 ==> forall|j: int| r.1 <= j < self.edge_map@.len() ==> (#[trigger] self.edge_map@[j]).0 > key,
    {
        let mut lo: usize = 0;
        let mut hi: usize = self.edge_map.len();
        while lo < hi
            invariant
                self.inv(),
                lo <= hi <= self.edge_map@.len(),
                forall|j: int| 0 <= j < lo ==> (#[trigger] self.edge_map@[j]).0 < key,
                forall|j: int| hi <= j < self.edge_map@.len() ==> (#[trigger] self.edge_map@[j]).0 >= key,
            decreases hi - lo,
        {
            let mid = lo + (hi - lo) / 2;
            if self.edge_map[mid].0 < key {
                lo = mid + 1;
            } else {
                hi = mid;
            }
        }
        let found = lo < self.edge_map.len() && self.edge_map[lo].0 == key;
        proof {
            let m = self.edge_map@;
            assert forall|j: int| lo < j < m.len() implies (#[trigger] m[j]).0 > key by {
                assert(m[lo as int].0 < m[j].0);
            }
        }
        (found, lo)
    }

    /// Id of the edge `(u, v)`, if registered.
    fn lookup_edge(&self, u: NodeId, v: NodeId) -> (r: Option<u32>)
        requires
            self.inv(),
        ensures
            r matches Some(id) ==> id < self.edge_list().len() && self.edge_list()[id as int] == canon(u, v),
            r is None ==> !self.edge_list().contains(canon(u, v)),
    {
        let key = edge_key(u, v);
        let (found, pos) = self.search(key);
        proof {
            let m = self.edge_map@;
            let es = self.edges@;
            let c = canon(u, v);
            if found {
                let id = m[pos as int].1;
                lemma_key_order(es[id as int].0, es[id as int].1, c.0, c.1);
            } else {
                if es.contains(c) {
                    let k = choose|k: int| 0 <= k < es.len() && es[k] == c;
                    assert(m.contains((key_of(es[k].0, es[k].1), k as u32)));
                    let j = choose|j: int| 0 <= j < m.len() && m[j] == (key_of(es[k].0, es[k].1), k as u32);
                    assert(m[j].0 == key);
                }
            }
        }
        if found {
            Some(self.edge_map[pos].1)
        } else {
            None
        }
    }

    fn run_checkpoint(&mut self)
        ensures
            *final(self) == (IncrementalH1State { ops_since_checkpoint: 0, ..*old(self) }),
    {
        self.ops_since_checkpoint = 0;
    }

    /// Registers the edge `(u, v)`; idempotent. Returns its edge id (the
    /// existing one, or the next free id).
    pub fn add_edge(&mut self, u: NodeId, v: NodeId) -> (id: u32)
        requires
            old(self).inv(),
            (u.raw() as int) < old(self).forest().node_count(),
            (v.raw() as int) < old(self).forest().node_count(),
            old(self).edge_list().len() + 1 < u32::MAX - 2,
        ensures
            final(self).inv(),
            old(self).edge_list().contains(canon(u, v)) ==> final(self).edge_list() == old(self).edge_list()
                && id < old(self).edge_list().len() && old(self).edge_list()[id as int] == canon(u, v)
                && final(self).forest() == old(self).forest() && final(self).boundaries()
                == old(self).boundaries(),
            !old(self).edge_list().contains(canon(u, v)) ==> final(self).edge_list() == old(self).edge_list().push(
                canon(u, v),
            ) && id == old(self).edge_list().len() && final(self).forest().node_count()
                == old(self).forest().node_count() && final(self).boundaries().added_columns()
                == old(self).boundaries().added_columns() && final(self).boundaries().spec_rank()
                == old(self).boundaries().spec_rank() && final(self).forest().component_count()
                == old(self).forest().component_count() - if old(self).forest().roots()[u.raw() as int]
                != old(self).forest().roots()[v.raw() as int] {
                1int
            } else {
                0int
            },
    {
        let key = edge_key(u, v);
        let (found, pos) = self.search(key);
        if found {
            let id = self.edge_map[pos].1;
            proof {
                let m = self.edge_map@;
                let es = self.edges@;
                let c = canon(u, v);
                lemma_key_order(es[id as int].0, es[id as int].1, c.0, c.1);
                assert(es[id as int] == c);
            }
            return id;
        }
        proof {
            let m = self.edge_map@;
            let es = self.edges@;
            let c = canon(u, v);
            if es.contains(c) {
                let k = choose|k: int| 0 <= k < es.len() && es[k] == c;
                assert(m.contains((key_of(es[k].0, es[k].1), k as u32)));
                let j = choose|j: int| 0 <= j < m.len() && m[j] == (key_of(es[k].0, es[k].1), k as u32);
                assert(m[j].0 == key);
            }
        }
        let edge_id = self.num_edges as u32;
        let ghost m0 = self.edge_map@;
        let ghost es0 = self.edges@;
        let ghost pairs0 = self.edge_pairs();
        let ghost n = self.uf.node_count();
        let ghost r0 = self.uf.roots();
        proof {
            self.uf.lemma_roots();
        }
        self.edge_map.insert(pos, (key, edge_id));
        self.d2.register_edge(edge_id);
        self.num_edges = self.num_edges + 1;
        let _ = self.uf.union(u.get() as usize, v.get() as usize);
        proof {
            self.edges@ = es0.push(canon(u, v));
            self.uf.lemma_roots();
            let c = canon(u, v);
            let a = c.0 as int;
            let b = c.1 as int;
            let pairs1 = self.edge_pairs();
            assert(pairs1 =~= pairs0.push((a, b)));
            let r1 = self.uf.roots();
            assert(pairs_within(n, pairs1)) by {
                assert forall|k: int| 0 <= k < pairs1.len() implies 0 <= (#[trigger] pairs1[k]).0 < n && 0 <= pairs1[k].1
                    < n by {
                    if k < pairs0.len() {
                        assert(pairs1[k] == pairs0[k]);
                    }
                }
            }
            assert forall|x: int, y: int| 0 <= x < n && 0 <= y < n implies (#[trigger] r1[x] == #[trigger] r1[y])
                == (crate::cohomology::comp_labels(n, pairs1)[x] == crate::cohomology::comp_labels(n, pairs1)[y]) by {
                lemma_comp_labels_push(n, pairs0, a, b, x, y);
                let lab = crate::cohomology::comp_labels(n, pairs0);
                assert((r0[x] == r0[u.raw() as int]) == (lab[x] == lab[u.raw() as int]));
                assert((r0[y] == r0[v.raw() as int]) == (lab[y] == lab[v.raw() as int]));
                assert((r0[x] == r0[v.raw() as int]) == (lab[x] == lab[v.raw() as int]));
                assert((r0[y] == r0[u.raw() as int]) == (lab[y] == lab[u.raw() as int]));
                assert((r0[x] == r0[y]) == (lab[x] == lab[y]));
            }
            let m = self.edge_map@;
            let es = self.edges@;
            assert(m == m0.insert(pos as int, (key, edge_id)));
            assert forall|i: int, j: int| 0 <= i < j < m.len() implies (#[trigger] m[i]).0 < (#[trigger] m[j]).0 by {
                if i < pos && j < pos {
                    assert(m[i] == m0[i] && m[j] == m0[j]);
                } else if i < pos && j == pos {
                    assert(m[i] == m0[i]);
                } else if i < pos {
                    assert(m[i] == m0[i] && m[j] == m0[j - 1]);
                } else if i == pos {
                    assert(m[j] == m0[j - 1]);
                } else {
                    assert(m[i] == m0[i - 1] && m[j] == m0[j - 1]);
                }
            }
            assert forall|j: int| 0 <= j < m.len() implies (#[trigger] m[j]).1 < es.len() && m[j].0 == key_of(
                es[m[j].1 as int].0,
                es[m[j].1 as int].1,
            ) by {
                if j < pos {
                    assert(m[j] == m0[j]);
                    assert(es[m0[j].1 as int] == es0[m0[j].1 as int]);
                } else if j > pos {
                    assert(m[j] == m0[j - 1]);
                    assert(es[m0[j - 1].1 as int] == es0[m0[j - 1].1 as int]);
                }
            }
            assert forall|k: int| 0 <= k < es.len() implies m.contains((key_of(#[trigger] es[k].0, es[k].1), k as u32)) by {
                if k < es0.len() {
                    assert(es[k] == es0[k]);
                    assert(m0.contains((key_of(es0[k].0, es0[k].1), k as u32)));
                    let j = choose|j: int| 0 <= j < m0.len() && m0[j] == (key_of(es0[k].0, es0[k].1), k as u32);
                    if j < pos {
                        assert(m[j] == m0[j]);
                    } else {
                        assert(m[j + 1] == m0[j]);
                    }
                } else {
                    assert(m[pos as int] == (key, edge_id));
                }
            }
        }
        self.ops_since_checkpoint = self.ops_since_checkpoint + 1;
        if self.ops_since_checkpoint >= CHECKPOINT_INTERVAL {
            self.run_checkpoint();
        }
        edge_id
    }

    /// Registers the triangle `(a, b, c)` when all three of its sides are
    /// registered edges; otherwise nothing changes.
    pub fn add_triangle(&mut self, a: NodeId, b: NodeId, c: NodeId)
        requires
            old(self).inv(),
        ensures
            final(self).inv(),
            final(self).edge_list() == old(self).edge_list(),
            final(self).forest() == old(self).forest(),
            ({
                let es = old(self).edge_list();
                let d0 = old(self).boundaries();
                let d1 = final(self).boundaries();
                if es.contains(canon(a, b)) && es.contains(canon(a, c)) && es.contains(canon(b, c)) {
                    exists|e1: u32, e2: u32, e3: u32|
                        es[e1 as int] == canon(a, b) && es[e2 as int] == canon(a, c) && es[e3 as int] == canon(b, c)
                            && (e1 as int) < es.len() && (e2 as int) < es.len() && (e3 as int) < es.len()
                            && #[trigger] d1.added_columns() == d0.added_columns().push(
                            triangle_boundary(e1, e2, e3),
                        ) && d1.spec_rank() == d0.spec_rank() + if in_col_span(
                            triangle_boundary(e1, e2, e3),
                            d0.basis(),
                        ) {
                            0int
                        } else {
                            1int
                        }
                } else {
                    d1 == d0
                }
            }),
    {
        let ab = self.lookup_edge(a, b);
        let ac = self.lookup_edge(a, c);
        let bc = self.lookup_edge(b, c);
        match (ab, ac, bc) {
            (Some(e1), Some(e2), Some(e3)) => {
                let added = self.d2.add_triangle(e1, e2, e3);
                if added {
                    self.ops_since_checkpoint = self.ops_since_checkpoint + 1;
                    if self.ops_since_checkpoint >= CHECKPOINT_INTERVAL {
                        self.run_checkpoint();
                    }
                }
            },
            _ => {},
        }
    }

    /// The H¹ dimension the state reports is dim ker ∂₁ − dim im ∂₂ of its
    /// registered graph and filled triangles: with `r1` the Z₂ rank of the
    /// vertex–edge incidence matrix and `r2` that of the matrix of triangle
    /// boundaries, it is `(edges − r1) − r2`, each difference floored at zero.
    pub proof fn lemma_h1_dim_is_homology(&self, r1: nat, r2: nat)
        requires
            self.inv(),
            is_gf2_rank(incidence(self.forest().node_count(), self.edge_pairs()), self.edge_list().len(), r1),
            is_gf2_rank(
                col_rows(self.boundaries().added_columns(), self.edge_list().len()),
                self.edge_list().len(),
                r2,
            ),
        ensures
            self.edge_pairs().len() == self.edge_list().len(),
            h1_dimension(
                self.edge_list().len(),
                self.forest().node_count(),
                self.forest().component_count(),
                self.boundaries().spec_rank(),
            ) == sat_sub(sat_sub(self.edge_list().len() as int, r1 as int), r2 as int),
    {
        self.uf.lemma_roots();
        lemma_incidence_rank(self.uf.node_count(), self.edge_pairs(), self.uf.roots(), r1);
        self.d2.lemma_rank_is_gf2_rank(r2);
    }

    /// Number of registered edges.
    pub fn num_edges(&self) -> (n: usize)
        requires
            self.inv(),
        ensures
            n == self.edge_list().len(),
    {
        self.num_edges
    }

    /// `true` when H¹ = 0: dim ker ∂₁ − rank ∂₂ is zero.
    pub fn h1_is_zero(&self) -> (r: bool)
        requires
            self.inv(),
        ensures
            r == (h1_dimension(
                self.edge_list().len(),
                self.forest().node_count(),
                self.forest().component_count(),
                self.boundaries().spec_rank(),
            ) == 0),
    {
        let rank_d1 = self.uf.rank_d1();
        let rank_d2 = self.d2.rank();
        let dim_ker_d1 = self.num_edges.saturating_sub(rank_d1);
        dim_ker_d1.saturating_sub(rank_d2) == 0
    }

    /// dim H¹ = (edges − (nodes − components)) − rank ∂₂, each difference
    /// floored at zero.
    pub fn h1_dim(&self) -> (r: usize)
        requires
            self.inv(),
        ensures
            r == h1_dimension(
                self.edge_list().len(),
                self.forest().node_count(),
                self.forest().component_count(),
                self.boundaries().spec_rank(),
            ),
    {
        let rank_d1 = self.uf.rank_d1();
        let rank_d2 = self.d2.rank();
        self.num_edges.saturating_sub(rank_d1).saturating_sub(rank_d2)
    }
}

impl Default for IncrementalH1State {
    fn default() -> (s: Self)
        ensures
            s.inv(),
            s.edge_list() == Seq::<(u64, u64)>::empty(),
            s.forest().node_count() == 0,
    {
        IncrementalH1State::new()
    }
}

/// `a − b` floored at zero.
pub open spec fn sat_sub(a: int, b: int) -> int {
    if a >= b {
        a - b
    } else {
        0
    }
}

/// dim H¹ from the counts: edges − rank ∂₁ − rank ∂₂, with rank ∂₁ = nodes −
/// components, each difference floored at zero.
pub open spec fn h1_dimension(edges: nat, nodes: nat, components: nat, rank_d2: nat) -> int {
    sat_sub(sat_sub(edges as int, sat_sub(nodes as int, components as int)), rank_d2 as int)
}

} // verus!
