//! Vietoris-Rips complex up to dimension 2, graph-induced.
//!
//! The complex is built from the node identifiers and the list of accepted
//! edges (pairs of node positions whose geometric distance is within the
//! scale); the distance test itself is floating-point work done by the caller.
use vstd::prelude::*;
use vstd::seq_lib::lemma_multiset_commutative;

use crate::cohomology::{
    index_ids, indexes, lemma_lookup_missing, lemma_lookup_row, lookup_vertex, pos_of, slot_of, IdSlot,
};
use crate::signal::NodeId;
use crate::sort::{merge_sort, sorted_by_key, KeyOrder};

verus! {

broadcast use vstd::seq_lib::group_to_multiset_ensures;

/// Neighbours of position `i`, in the order in which the accepted edges list them.
pub open spec fn nbrs(acc: Seq<(usize, usize)>, i: int) -> Seq<usize>
    decreases acc.len(),
{
    if acc.len() == 0 {
        Seq::empty()
    } else {
        let e = acc.last();
        let base = nbrs(acc.drop_last(), i);
        let b1 = if e.0 == i {
            base.push(e.1)
        } else {
            base
        };
        if e.1 == i {
            b1.push(e.0)
        } else {
            b1
        }
    }
}

/// Positions `a` and `b` are joined by an accepted edge (in either direction).
pub open spec fn adjacent(acc: Seq<(usize, usize)>, a: int, b: int) -> bool {
    exists|k: int|
        0 <= k < acc.len() && ((#[trigger] acc[k].0 == a && acc[k].1 == b) || (acc[k].0 == b
            && acc[k].1 == a))
}

/// Every accepted edge joins two distinct positions below `n`.
pub open spec fn edges_in_range(acc: Seq<(usize, usize)>, n: nat) -> bool {
    forall|k: int| 0 <= k < acc.len() ==> (#[trigger] acc[k]).0 < n && acc[k].1 < n && acc[k].0 != acc[k].1
}

/// Sum of the neighbour-list lengths of positions `0..k`.
pub open spec fn deg_sum(acc: Seq<(usize, usize)>, k: int) -> int
    decreases k,
{
    if k <= 0 {
        0
    } else {
        deg_sum(acc, k - 1) + nbrs(acc, k - 1).len()
    }
}

proof fn lemma_nbrs_contains(acc: Seq<(usize, usize)>, i: int, x: usize)
    ensures
        nbrs(acc, i).contains(x) == adjacent(acc, i, x as int),
    decreases acc.len(),
{
    if acc.len() > 0 {
        let init = acc.drop_last();
        lemma_nbrs_contains(init, i, x);
        let e = acc.last();
        if adjacent(init, i, x as int) {
            let k = choose|k: int|
                0 <= k < init.len() && ((#[trigger] init[k].0 == i && init[k].1 == x) || (init[k].0
                    == x && init[k].1 == i));
            assert(acc[k] == init[k]);
        }
        if adjacent(acc, i, x as int) {
            let k = choose|k: int|
                0 <= k < acc.len() && ((#[trigger] acc[k].0 == i && acc[k].1 == x) || (acc[k].0 == x
                    && acc[k].1 == i));
            if k < acc.len() - 1 {
                assert(init[k] == acc[k]);
            }
        }
        let base = nbrs(init, i);
        if base.contains(x) {
            let w = choose|w: int| 0 <= w < base.len() && base[w] == x;
            let b1 = if e.0 == i {
                base.push(e.1)
            } else {
                base
            };
            assert(b1[w] == x);
            if e.1 == i {
                assert(b1.push(e.0)[w] == x);
            }
        }
        if nbrs(acc, i).contains(x) && !base.contains(x) {
            let s = nbrs(acc, i);
            let w = choose|w: int| 0 <= w < s.len() && s[w] == x;
            assert(w >= base.len());
            let last = acc.len() - 1;
            assert(acc[last] == e);
        }
        if adjacent(acc, i, x as int) && !adjacent(init, i, x as int) {
            let last = acc.len() - 1;
            assert(acc[last] == e);
            let k = choose|k: int|
                0 <= k < acc.len() && ((#[trigger] acc[k].0 == i && acc[k].1 == x) || (acc[k].0 == x
                    && acc[k].1 == i));
            if k < last {
                assert(init[k] == acc[k]);
            }
            let b1 = if e.0 == i {
                base.push(e.1)
            } else {
                base
            };
            if e.0 == i && e.1 == x {
                assert(b1[base.len() as int] == x);
                if e.1 == i {
                    assert(b1.push(e.0)[base.len() as int] == x);
                }
            } else {
                assert(b1.push(e.0)[b1.len() as int] == x);
            }
        }
    }
}

proof fn lemma_nbrs_prefix(acc: Seq<(usize, usize)>, k: int, i: int)
    requires
        0 <= k <= acc.len(),
    ensures
        nbrs(acc.take(k), i).len() <= nbrs(acc, i).len(),
        nbrs(acc, i).take(nbrs(acc.take(k), i).len() as int) == nbrs(acc.take(k), i),
    decreases acc.len() - k,
{
    if k == acc.len() {
        assert(acc.take(k) =~= acc);
        assert(nbrs(acc, i).take(nbrs(acc, i).len() as int) =~= nbrs(acc, i));
    } else {
        lemma_nbrs_prefix(acc, k + 1, i);
        let t1 = acc.take(k + 1);
        assert(t1.drop_last() =~= acc.take(k));
        let a = nbrs(acc.take(k), i);
        let b = nbrs(t1, i);
        let c = nbrs(acc, i);
        assert(b.take(a.len() as int) =~= a);
        assert(c.take(a.len() as int) =~= c.take(b.len() as int).take(a.len() as int));
    }
}

/// No accepted edge is a loop.
pub open spec fn no_loops(acc: Seq<(usize, usize)>) -> bool {
    forall|k: int| 0 <= k < acc.len() ==> (#[trigger] acc[k]).0 != acc[k].1
}

proof fn lemma_nbrs_len_bound(acc: Seq<(usize, usize)>, i: int)
    requires
        no_loops(acc),
    ensures
        nbrs(acc, i).len() <= acc.len(),
    decreases acc.len(),
{
    if acc.len() > 0 {
        let init = acc.drop_last();
        assert(no_loops(init)) by {
            assert forall|k: int| 0 <= k < init.len() implies (#[trigger] init[k]).0 != init[k].1 by {
                assert(init[k] == acc[k]);
            }
        }
        lemma_nbrs_len_bound(init, i);
        let last = acc.len() - 1;
        assert(acc[last].0 != acc[last].1);
    }
}

proof fn lemma_deg_sum_last(acc: Seq<(usize, usize)>, k: int)
    requires
        acc.len() > 0,
        0 <= k,
    ensures
        deg_sum(acc, k) == deg_sum(acc.drop_last(), k) + (if (acc.last().0 as int) < k {
            1int
        } else {
            0int
        }) + (if (acc.last().1 as int) < k {
            1int
        } else {
            0int
        }),
    decreases k,
{
    if k > 0 {
        lemma_deg_sum_last(acc, k - 1);
    }
}

proof fn lemma_deg_sum_total(acc: Seq<(usize, usize)>, n: nat)
    requires
        edges_in_range(acc, n),
    ensures
        deg_sum(acc, n as int) == 2 * acc.len(),
    decreases acc.len(),
{
    if acc.len() == 0 {
        lemma_deg_sum_zero(acc, n as int);
    } else {
        let init = acc.drop_last();
        assert(edges_in_range(init, n)) by {
            assert forall|k: int| 0 <= k < init.len() implies (#[trigger] init[k]).0 < n && init[k].1 < n
                && init[k].0 != init[k].1 by {
                assert(init[k] == acc[k]);
            }
        }
        lemma_deg_sum_total(init, n);
        lemma_deg_sum_last(acc, n as int);
        let last = acc.len() - 1;
        assert(acc[last] == acc.last());
    }
}

proof fn lemma_deg_sum_zero(acc: Seq<(usize, usize)>, k: int)
    requires
        acc.len() == 0,
    ensures
        deg_sum(acc, k) == 0,
    decreases k,
{
    if k > 0 {
        lemma_deg_sum_zero(acc, k - 1);
    }
}

proof fn lemma_deg_sum_mono(acc: Seq<(usize, usize)>, a: int, b: int)
    requires
        0 <= a <= b,
    ensures
        deg_sum(acc, a) <= deg_sum(acc, b),
    decreases b - a,
{
    if a < b {
        lemma_deg_sum_mono(acc, a, b - 1);
    }
}

/// Builds the CSR adjacency: offsets, then neighbour fill in edge order, then
/// each row sorted ascending.
fn build_csr(n: usize, accepted: &Vec<(usize, usize)>) -> (res: (Vec<usize>, Vec<usize>))
    requires
        edges_in_range(accepted@, n as nat),
        2 * accepted@.len() <= usize::MAX,
        n + 1 <= usize::MAX,
    ensures
        res.1@.len() == n + 1,
        res.1@[0] == 0,
        forall|i: int| 0 <= i <= n ==> #[trigger] res.1@[i] == deg_sum(accepted@, i),
        res.1@[n as int] == res.0@.len(),
        res.0@.len() == 2 * accepted@.len(),
        forall|i: int|
            0 <= i < n ==> sorted_by_key(#[trigger] res.0@.subrange(res.1@[i] as int, res.1@[i + 1] as int)),
        forall|i: int|
            0 <= i < n ==> (#[trigger] res.0@.subrange(res.1@[i] as int, res.1@[i + 1] as int)).to_multiset()
                == nbrs(accepted@, i).to_multiset(),
        forall|k: int| 0 <= k < res.0@.len() ==> #[trigger] res.0@[k] < n,
{
    let ghost acc = accepted@;
    let m = accepted.len();
    let mut offsets: Vec<usize> = vec![0usize; n + 1];
    let mut k: usize = 0;
    while k < m
        invariant
            acc == accepted@,
            m == acc.len(),
            k <= m,
            edges_in_range(acc, n as nat),
            2 * m <= usize::MAX,
            offsets@.len() == n + 1,
            offsets@[0] == 0,
            forall|i: int| 0 <= i < n ==> #[trigger] offsets@[i + 1] == nbrs(acc.take(k as int), i).len(),
        decreases m - k,
    {
        let (u, v) = accepted[k];
        proof {
            assert(acc.take(k as int + 1).drop_last() =~= acc.take(k as int));
            assert(acc.take(k as int + 1).last() == acc[k as int]);
            assert(no_loops(acc.take(k as int))) by {
                assert forall|j: int| 0 <= j < acc.take(k as int).len() implies (#[trigger] acc.take(
                    k as int,
                )[j]).0 != acc.take(k as int)[j].1 by {
                    assert(acc.take(k as int)[j] == acc[j]);
                }
            }
            lemma_nbrs_len_bound(acc.take(k as int), u as int);
            lemma_nbrs_len_bound(acc.take(k as int), v as int);
        }
        let cu = offsets[u + 1];
        offsets.set(u + 1, cu + 1);
        let cv = offsets[v + 1];
        offsets.set(v + 1, cv + 1);
        k += 1;
        proof {
            assert forall|i: int| 0 <= i < n implies #[trigger] offsets@[i + 1] == nbrs(
                acc.take(k as int),
                i,
            ).len() by {}
        }
    }
    proof {
        assert(acc.take(m as int) =~= acc);
        lemma_deg_sum_total(acc, n as nat);
        assert forall|j: int| 1 <= j <= n implies #[trigger] offsets@[j] == nbrs(acc, j - 1).len() by {
            assert(offsets@[(j - 1) + 1] == nbrs(acc.take(m as int), j - 1).len());
        }
    }
    let mut i: usize = 1;
    while i <= n
        invariant
            acc == accepted@,
            1 <= i <= n + 1,
            n + 1 <= usize::MAX,
            offsets@.len() == n + 1,
            offsets@[0] == 0,
            deg_sum(acc, n as int) == 2 * acc.len(),
            2 * acc.len() <= usize::MAX,
            forall|j: int| 0 <= j < i ==> #[trigger] offsets@[j] == deg_sum(acc, j),
            forall|j: int| i <= j <= n ==> #[trigger] offsets@[j] == nbrs(acc, j - 1).len(),
        decreases n + 1 - i,
    {
        proof {
            lemma_deg_sum_mono(acc, i as int, n as int);
        }
        let prev = offsets[i - 1];
        let cur = offsets[i];
        offsets.set(i, cur + prev);
        i += 1;
    }
    let total = offsets[n];
    proof {
        assert(total == 2 * acc.len());
        assert forall|a: int, b: int| 0 <= a <= b <= n implies #[trigger] offsets@[a] <= #[trigger] offsets@[b] by {
            lemma_deg_sum_mono(acc, a, b);
        }
    }
    let mut data: Vec<usize> = vec![0usize; total];
    let mut heads: Vec<usize> = Vec::new();
    let mut j: usize = 0;
    while j < n
        invariant
            j <= n,
            offsets@.len() == n + 1,
            heads@ == offsets@.take(j as int),
        decreases n - j,
    {
        heads.push(offsets[j]);
        proof {
            assert(offsets@.take(j as int + 1) =~= offsets@.take(j as int).push(offsets@[j as int]));
        }
        j += 1;
    }
    let mut k: usize = 0;
    while k < m
        invariant
            acc == accepted@,
            m == acc.len(),
            k <= m,
            edges_in_range(acc, n as nat),
            offsets@.len() == n + 1,
            forall|i2: int| 0 <= i2 <= n ==> #[trigger] offsets@[i2] == deg_sum(acc, i2),
            forall|a: int, b: int| 0 <= a <= b <= n ==> #[trigger] offsets@[a] <= #[trigger] offsets@[b],
            data@.len() == total,
            total == offsets@[n as int],
            heads@.len() == n,
            forall|i2: int|
                0 <= i2 < n ==> #[trigger] heads@[i2] == offsets@[i2] + nbrs(acc.take(k as int), i2).len(),
            forall|i2: int|
                0 <= i2 < n ==> #[trigger] data@.subrange(offsets@[i2] as int, heads@[i2] as int)
                    == nbrs(acc.take(k as int), i2),
            forall|x: int| 0 <= x < data@.len() ==> #[trigger] data@[x] < n,
        decreases m - k,
    {
        let (u, v) = accepted[k];
        let ghost d0 = data@;
        let ghost h0 = heads@;
        let ghost kold = k as int;
        proof {
            assert(acc.take(k as int + 1).drop_last() =~= acc.take(k as int));
            assert(acc.take(k as int + 1).last() == acc[k as int]);
            lemma_nbrs_prefix(acc, k as int + 1, u as int);
            lemma_nbrs_prefix(acc, k as int + 1, v as int);
            assert(offsets@[u as int + 1] == deg_sum(acc, u as int) + nbrs(acc, u as int).len());
            assert(offsets@[v as int + 1] == deg_sum(acc, v as int) + nbrs(acc, v as int).len());
        }
        let hu = heads[u];
        data.set(hu, v);
        heads.set(u, hu + 1);
        let hv = heads[v];
        data.set(hv, u);
        heads.set(v, hv + 1);
        k += 1;
        proof {
            assert forall|i2: int| 0 <= i2 < n implies #[trigger] data@.subrange(
                offsets@[i2] as int,
                heads@[i2] as int,
            ) == nbrs(acc.take(k as int), i2) by {
                let lo = offsets@[i2] as int;
                let hi = heads@[i2] as int;
                if i2 == u as int {
                    assert(data@.subrange(lo, hi) =~= d0.subrange(lo, h0[i2] as int).push(v));
                } else if i2 == v as int {
                    assert(data@.subrange(lo, hi) =~= d0.subrange(lo, h0[i2] as int).push(u));
                } else {
                    if i2 < u as int {
                        assert(offsets@[i2 + 1] <= offsets@[u as int]);
                    } else {
                        assert(offsets@[u as int + 1] <= offsets@[i2]);
                    }
                    if i2 < v as int {
                        assert(offsets@[i2 + 1] <= offsets@[v as int]);
                    } else {
                        assert(offsets@[v as int + 1] <= offsets@[i2]);
                    }
                    lemma_nbrs_prefix(acc, kold, i2);
                    assert(nbrs(acc.take(k as int), i2) == nbrs(acc.take(kold), i2));
                    assert(hi == h0[i2]);
                    assert(hi <= offsets@[i2 + 1]);
                    assert(data@.subrange(lo, hi) =~= d0.subrange(lo, hi));
                }
            }
        }
    }
    proof {
        assert(acc.take(m as int) =~= acc);
        assert forall|i2: int| 0 <= i2 < n implies #[trigger] data@.subrange(
            offsets@[i2] as int,
            offsets@[i2 + 1] as int,
        ) == nbrs(acc, i2) by {
            assert(heads@[i2] == offsets@[i2] + nbrs(acc, i2).len());
            assert(offsets@[i2 + 1] == deg_sum(acc, i2 + 1));
        }
    }
    let mut i: usize = 0;
    while i < n
        invariant
            acc == accepted@,
            i <= n,
            offsets@.len() == n + 1,
            forall|i2: int| 0 <= i2 <= n ==> #[trigger] offsets@[i2] == deg_sum(acc, i2),
            forall|a: int, b: int| 0 <= a <= b <= n ==> #[trigger] offsets@[a] <= #[trigger] offsets@[b],
            data@.len() == offsets@[n as int],
            forall|i2: int|
                0 <= i2 < i ==> sorted_by_key(
                    #[trigger] data@.subrange(offsets@[i2] as int, offsets@[i2 + 1] as int),
                ),
            forall|i2: int|
                0 <= i2 < i ==> (#[trigger] data@.subrange(
                    offsets@[i2] as int,
                    offsets@[i2 + 1] as int,
                )).to_multiset() == nbrs(acc, i2).to_multiset(),
            forall|i2: int|
                i <= i2 < n ==> #[trigger] data@.subrange(offsets@[i2] as int, offsets@[i2 + 1] as int)
                    == nbrs(acc, i2),
            forall|x: int| 0 <= x < data@.len() ==> #[trigger] data@[x] < n,
        decreases n - i,
    {
        let lo = offsets[i];
        let hi = offsets[i + 1];
        let ghost d0 = data@;
        let mut seg: Vec<usize> = Vec::new();
        let mut p = lo;
        while p < hi
            invariant
                lo <= p <= hi,
                hi <= data@.len(),
                data@ == d0,
                seg@ == d0.subrange(lo as int, p as int),
            decreases hi - p,
        {
            seg.push(data[p]);
            proof {
                assert(d0.subrange(lo as int, p as int + 1) =~= d0.subrange(lo as int, p as int).push(
                    d0[p as int],
                ));
            }
            p += 1;
        }
        let sorted = merge_sort(&seg);
        proof {
            assert forall|x: int| 0 <= x < sorted@.len() implies #[trigger] sorted@[x] < n by {
                assert(sorted@.to_multiset().count(sorted@[x]) > 0);
                assert(seg@.contains(sorted@[x]));
                let y = choose|y: int| 0 <= y < seg@.len() && seg@[y] == sorted@[x];
                assert(seg@[y] == d0[lo + y]);
            }
        }
        let mut q = lo;
        while q < hi
            invariant
                lo <= q <= hi,
                hi <= data@.len(),
                data@.len() == d0.len(),
                sorted@.len() == hi - lo,
                forall|x: int| 0 <= x < sorted@.len() ==> #[trigger] sorted@[x] < n,
                forall|x: int| 0 <= x < d0.len() ==> #[trigger] d0[x] < n,
                forall|x: int| 0 <= x < data@.len() ==> #[trigger] data@[x] == if lo <= x < q {
                    sorted@[x - lo]
                } else {
                    d0[x]
                },
            decreases hi - q,
        {
            data.set(q, sorted[q - lo]);
            q += 1;
        }
        proof {
            assert(data@.subrange(lo as int, hi as int) =~= sorted@);
            assert forall|i2: int| 0 <= i2 < n && i2 != i implies #[trigger] data@.subrange(
                offsets@[i2] as int,
                offsets@[i2 + 1] as int,
            ) == d0.subrange(offsets@[i2] as int, offsets@[i2 + 1] as int) by {
                if i2 < i {
                    assert(offsets@[i2 + 1] <= offsets@[i as int]);
                } else {
                    assert(offsets@[i as int + 1] <= offsets@[i2]);
                }
                assert(data@.subrange(offsets@[i2] as int, offsets@[i2 + 1] as int) =~= d0.subrange(
                    offsets@[i2] as int,
                    offsets@[i2 + 1] as int,
                ));
            }
        }
        i += 1;
    }
    (data, offsets)
}


/// A 1-simplex.
#[derive(Clone, Copy, Debug, PartialEq, Eq, Structural)]
pub struct Edge {
    /// Endpoint with the smaller identifier.
    pub u: NodeId,
    /// Endpoint with the larger identifier.
    pub v: NodeId,
}

/// A 2-simplex.
#[derive(Clone, Copy, Debug, PartialEq, Eq, Structural)]
pub struct Triangle {
    /// First vertex (smallest position).
    pub u: NodeId,
    /// Second vertex.
    pub v: NodeId,
    /// Third vertex (largest position).
    pub w: NodeId,
}

impl KeyOrder for Edge {
    open spec fn sorts_before(self, other: Self) -> bool {
        self.u.raw() < other.u.raw() || (self.u.raw() == other.u.raw() && self.v.raw()
            <= other.v.raw())
    }

    proof fn lemma_total(a: Self, b: Self) {
    }

    proof fn lemma_trans(a: Self, b: Self, c: Self) {
    }

    proof fn lemma_antisym(a: Self, b: Self) {
        NodeId::lemma_raw_injective(a.u, b.u);
        NodeId::lemma_raw_injective(a.v, b.v);
    }

    fn key_le(&self, other: &Self) -> (r: bool) {
        let a = self.u.get();
        let b = other.u.get();
        a < b || (a == b && self.v.get() <= other.v.get())
    }

    fn same(&self, other: &Self) -> (r: bool) {
        *self == *other
    }
}

impl KeyOrder for Triangle {
    open spec fn sorts_before(self, other: Self) -> bool {
        self.u.raw() < other.u.raw() || (self.u.raw() == other.u.raw() && (self.v.raw()
            < other.v.raw() || (self.v.raw() == other.v.raw() && self.w.raw() <= other.w.raw())))
    }

    proof fn lemma_total(a: Self, b: Self) {
    }

    proof fn lemma_trans(a: Self, b: Self, c: Self) {
    }

    proof fn lemma_antisym(a: Self, b: Self) {
        NodeId::lemma_raw_injective(a.u, b.u);
        NodeId::lemma_raw_injective(a.v, b.v);
        NodeId::lemma_raw_injective(a.w, b.w);
    }

    fn key_le(&self, other: &Self) -> (r: bool) {
        let a = self.u.get();
        let b = other.u.get();
        let c = self.v.get();
        let d = other.v.get();
        a < b || (a == b && (c < d || (c == d && self.w.get() <= other.w.get())))
    }

    fn same(&self, other: &Self) -> (r: bool) {
        *self == *other
    }
}

/// Sorted and free of repeats: strictly increasing in the key order.
pub open spec fn strictly_sorted<T: KeyOrder>(s: Seq<T>) -> bool {
    forall|i: int, j: int|
        0 <= i < j < s.len() ==> (#[trigger] s[i]).sorts_before(#[trigger] s[j]) && s[i] != s[j]
}

/// Removes repeats from a sorted sequence; keeps its set of elements.
fn dedup_sorted<T: KeyOrder>(v: &Vec<T>) -> (r: Vec<T>)
    requires
        sorted_by_key(v@),
    ensures
        strictly_sorted(r@),
        forall|x: T| r@.contains(x) == v@.contains(x),
{
    let mut out: Vec<T> = Vec::new();
    let mut i: usize = 0;
    while i < v.len()
        invariant
            i <= v@.len(),
            sorted_by_key(v@),
            strictly_sorted(out@),
            forall|x: T| out@.contains(x) ==> v@.contains(x),
            forall|j: int| 0 <= j < i ==> out@.contains(#[trigger] v@[j]),
            i > 0 ==> out@.len() > 0 && out@.last() == v@[i - 1],
            i == 0 ==> out@.len() == 0,
        decreases v@.len() - i,
    {
        let x = v[i];
        let skip = if out.len() > 0 {
            out[out.len() - 1].same(&x)
        } else {
            false
        };
        if skip {
            proof {
                assert(out@.contains(v@[i as int]));
            }
        } else {
            let ghost o = out@;
            proof {
                if o.len() > 0 {
                    assert(o.last() == v@[i - 1]);
                    assert(v@[i - 1].sorts_before(v@[i as int]));
                }
                assert forall|a: int, b: int| 0 <= a < b < o.push(x).len() implies (#[trigger] o.push(
                    x,
                )[a]).sorts_before(#[trigger] o.push(x)[b]) && o.push(x)[a] != o.push(x)[b] by {
                    if b == o.len() {
                        if a < o.len() - 1 {
                            T::lemma_trans(o[a], o.last(), x);
                        }
                        if o[a] == x {
                            if a < o.len() - 1 {
                                assert(o[a].sorts_before(o.last()));
                                T::lemma_antisym(o[a], o.last());
                            }
                        }
                    } else {
                        assert(o.push(x)[a] == o[a]);
                        assert(o.push(x)[b] == o[b]);
                    }
                }
            }
            out.push(x);
            proof {
                assert(out@.last() == x);
                assert forall|j: int| 0 <= j < i + 1 implies out@.contains(#[trigger] v@[j]) by {
                    if j < i {
                        assert(o.contains(v@[j]));
                        let w = choose|w: int| 0 <= w < o.len() && o[w] == v@[j];
                        assert(out@[w] == v@[j]);
                    } else {
                        assert(out@[out@.len() - 1] == v@[j]);
                    }
                }
            }
        }
        i += 1;
    }
    proof {
        assert forall|x: T| v@.contains(x) implies out@.contains(x) by {
            let j = choose|j: int| 0 <= j < v@.len() && v@[j] == x;
            assert(out@.contains(v@[j]));
        }
    }
    out
}


/// The candidate pairs that are kept as edges: those whose first endpoint has
/// the smaller identifier, in candidate order.
pub open spec fn kept_edges(ids: Seq<NodeId>, cand: Seq<(usize, usize)>) -> Seq<(usize, usize)>
    decreases cand.len(),
{
    if cand.len() == 0 {
        Seq::empty()
    } else {
        let base = kept_edges(ids, cand.drop_last());
        let e = cand.last();
        if ids[e.0 as int].raw() < ids[e.1 as int].raw() {
            base.push(e)
        } else {
            base
        }
    }
}

/// The edge joining positions `a` and `b`.
pub open spec fn edge_of(ids: Seq<NodeId>, a: int, b: int) -> Edge {
    Edge { u: ids[a], v: ids[b] }
}

/// The triangle on positions `a`, `b`, `c`.
pub open spec fn triangle_of(ids: Seq<NodeId>, a: int, b: int, c: int) -> Triangle {
    Triangle { u: ids[a], v: ids[b], w: ids[c] }
}

/// Every candidate pair names two positions below `n`.
pub open spec fn pairs_in_range(cand: Seq<(usize, usize)>, n: nat) -> bool {
    forall|k: int| 0 <= k < cand.len() ==> (#[trigger] cand[k]).0 < n && cand[k].1 < n
}

proof fn lemma_kept_edges(ids: Seq<NodeId>, cand: Seq<(usize, usize)>)
    requires
        pairs_in_range(cand, ids.len()),
    ensures
        kept_edges(ids, cand).len() <= cand.len(),
        edges_in_range(kept_edges(ids, cand), ids.len()),
        forall|k: int|
            0 <= k < kept_edges(ids, cand).len() ==> ids[(#[trigger] kept_edges(ids, cand)[k]).0 as int].raw()
                < ids[kept_edges(ids, cand)[k].1 as int].raw(),
        forall|p: (usize, usize)|
            kept_edges(ids, cand).contains(p) <==> (cand.contains(p) && ids[p.0 as int].raw()
                < ids[p.1 as int].raw()),
    decreases cand.len(),
{
    if cand.len() > 0 {
        let init = cand.drop_last();
        assert(pairs_in_range(init, ids.len())) by {
            assert forall|k: int| 0 <= k < init.len() implies (#[trigger] init[k]).0 < ids.len()
                && init[k].1 < ids.len() by {
                assert(init[k] == cand[k]);
            }
        }
        lemma_kept_edges(ids, init);
        let last = cand.len() - 1;
        assert(cand[last] == cand.last());
        assert forall|p: (usize, usize)| cand.contains(p) <==> (init.contains(p) || p == cand.last()) by {
            if cand.contains(p) {
                let k = choose|k: int| 0 <= k < cand.len() && cand[k] == p;
                if k < last {
                    assert(init[k] == p);
                }
            }
            if init.contains(p) {
                let k = choose|k: int| 0 <= k < init.len() && init[k] == p;
                assert(cand[k] == p);
            }
        }
        let base = kept_edges(ids, init);
        let e = cand.last();
        if ids[e.0 as int].raw() < ids[e.1 as int].raw() {
            assert(e.0 != e.1);
            assert forall|p: (usize, usize)| base.push(e).contains(p) <==> (base.contains(p) || p == e) by {
                if base.push(e).contains(p) {
                    let k = choose|k: int| 0 <= k < base.push(e).len() && base.push(e)[k] == p;
                    if k < base.len() {
                        assert(base[k] == p);
                    }
                }
                if base.contains(p) {
                    let k = choose|k: int| 0 <= k < base.len() && base[k] == p;
                    assert(base.push(e)[k] == p);
                }
                if p == e {
                    assert(base.push(e)[base.len() as int] == p);
                }
            }
        }
    }
}

proof fn lemma_kept_no_duplicates(ids: Seq<NodeId>, cand: Seq<(usize, usize)>)
    requires
        pairs_in_range(cand, ids.len()),
        cand.no_duplicates(),
    ensures
        kept_edges(ids, cand).no_duplicates(),
    decreases cand.len(),
{
    if cand.len() > 0 {
        let init = cand.drop_last();
        assert(pairs_in_range(init, ids.len())) by {
            assert forall|k: int| 0 <= k < init.len() implies (#[trigger] init[k]).0 < ids.len()
                && init[k].1 < ids.len() by {
                assert(init[k] == cand[k]);
            }
        }
        assert(init.no_duplicates()) by {
            assert forall|i: int, j: int| 0 <= i < init.len() && 0 <= j < init.len() && i != j implies init[i]
                != init[j] by {
                assert(init[i] == cand[i] && init[j] == cand[j]);
            }
        }
        lemma_kept_no_duplicates(ids, init);
        lemma_kept_edges(ids, init);
        let e = cand.last();
        let base = kept_edges(ids, init);
        if ids[e.0 as int].raw() < ids[e.1 as int].raw() {
            assert(!init.contains(e)) by {
                if init.contains(e) {
                    let k = choose|k: int| 0 <= k < init.len() && init[k] == e;
                    assert(cand[k] == cand[cand.len() - 1]);
                }
            }
            assert(!base.contains(e));
            let b = base.push(e);
            assert forall|i: int, j: int| 0 <= i < b.len() && 0 <= j < b.len() && i != j implies b[i] != b[j] by {
                if i == base.len() {
                    assert(base[j] == b[j]);
                } else if j == base.len() {
                    assert(base[i] == b[i]);
                }
            }
        }
    }
}

/// Distinct identifiers and distinct kept pairs give distinct edges: as
/// many edges as kept pairs.
proof fn lemma_edge_count(ids: Seq<NodeId>, acc: Seq<(usize, usize)>, edges: Seq<Edge>)
    requires
        distinct_ids(ids),
        edges_in_range(acc, ids.len()),
        acc.no_duplicates(),
        strictly_sorted(edges),
        forall|e: Edge|
            edges.contains(e) <==> exists|k: int|
                0 <= k < acc.len() && e == edge_of(ids, #[trigger] acc[k].0 as int, acc[k].1 as int),
    ensures
        edges.len() == acc.len(),
{
    let img = Seq::new(acc.len(), |k: int| edge_of(ids, acc[k].0 as int, acc[k].1 as int));
    assert forall|a: int, b: int| 0 <= a < ids.len() && 0 <= b < ids.len() && ids[a] == ids[b] implies a
        == b by {
        if a < b {
            assert(ids[a].raw() != ids[b].raw());
        } else if b < a {
            assert(ids[b].raw() != ids[a].raw());
        }
    }
    assert forall|i: int, j: int| 0 <= i < img.len() && 0 <= j < img.len() && i != j implies img[i]
        != img[j] by {
        if img[i] == img[j] {
            assert(ids[acc[i].0 as int] == ids[acc[j].0 as int]);
            assert(ids[acc[i].1 as int] == ids[acc[j].1 as int]);
            assert(acc[i] == acc[j]);
        }
    }
    assert forall|i: int, j: int| 0 <= i < edges.len() && 0 <= j < edges.len() && i != j implies edges[i]
        != edges[j] by {
        if i < j {
            assert(edges[i] != edges[j]);
        } else {
            assert(edges[j] != edges[i]);
        }
    }
    img.unique_seq_to_set();
    edges.unique_seq_to_set();
    assert forall|e: Edge| img.to_set().contains(e) <==> edges.to_set().contains(e) by {
        if edges.contains(e) {
            let k = choose|k: int|
                0 <= k < acc.len() && e == edge_of(ids, #[trigger] acc[k].0 as int, acc[k].1 as int);
            assert(img[k] == e);
        }
        if img.contains(e) {
            let k = choose|k: int| 0 <= k < img.len() && img[k] == e;
            assert(edges.contains(e));
        }
    }
    assert(img.to_set() =~= edges.to_set());
}

fn keep_edges(ids: &Vec<NodeId>, cand: &Vec<(usize, usize)>) -> (acc: Vec<(usize, usize)>)
    requires
        pairs_in_range(cand@, ids@.len()),
    ensures
        acc@ == kept_edges(ids@, cand@),
{
    let mut acc: Vec<(usize, usize)> = Vec::new();
    let mut k: usize = 0;
    while k < cand.len()
        invariant
            k <= cand@.len(),
            pairs_in_range(cand@, ids@.len()),
            acc@ == kept_edges(ids@, cand@.take(k as int)),
        decreases cand@.len() - k,
    {
        let (a, b) = cand[k];
        proof {
            assert(cand@.take(k as int + 1).drop_last() =~= cand@.take(k as int));
            assert(cand@.take(k as int + 1).last() == cand@[k as int]);
            assert(cand@[k as int].0 < ids@.len() && cand@[k as int].1 < ids@.len());
        }
        if ids[a].get() < ids[b].get() {
            acc.push((a, b));
        }
        k += 1;
    }
    proof {
        assert(cand@.take(cand@.len() as int) =~= cand@);
    }
    acc
}

/// Edges of the kept pairs, sorted by identifiers and without repeats.
fn collect_edges(ids: &Vec<NodeId>, acc: &Vec<(usize, usize)>) -> (edges: Vec<Edge>)
    requires
        edges_in_range(acc@, ids@.len()),
    ensures
        strictly_sorted(edges@),
        forall|e: Edge|
            edges@.contains(e) <==> exists|k: int|
                0 <= k < acc@.len() && e == edge_of(ids@, #[trigger] acc@[k].0 as int, acc@[k].1 as int),
{
    let mut raw_edges: Vec<Edge> = Vec::new();
    let mut k: usize = 0;
    while k < acc.len()
        invariant
            k <= acc@.len(),
            edges_in_range(acc@, ids@.len()),
            raw_edges@.len() == k,
            forall|j: int|
                0 <= j < k ==> #[trigger] raw_edges@[j] == edge_of(ids@, acc@[j].0 as int, acc@[j].1 as int),
        decreases acc@.len() - k,
    {
        let (a, b) = acc[k];
        proof {
            assert(acc@[k as int].0 < ids@.len() && acc@[k as int].1 < ids@.len());
        }
        raw_edges.push(Edge { u: ids[a], v: ids[b] });
        k += 1;
    }
    let sorted = merge_sort(&raw_edges);
    let edges = dedup_sorted(&sorted);
    proof {
        assert forall|e: Edge| edges@.contains(e) <==> exists|k: int|
            0 <= k < acc@.len() && e == edge_of(ids@, #[trigger] acc@[k].0 as int, acc@[k].1 as int) by {
            assert(sorted@.contains(e) == (sorted@.to_multiset().count(e) > 0));
            assert(raw_edges@.contains(e) == (raw_edges@.to_multiset().count(e) > 0));
            if raw_edges@.contains(e) {
                let j = choose|j: int| 0 <= j < raw_edges@.len() && raw_edges@[j] == e;
                assert(raw_edges@[j] == edge_of(ids@, acc@[j].0 as int, acc@[j].1 as int));
            }
            if exists|k: int|
                0 <= k < acc@.len() && e == edge_of(ids@, #[trigger] acc@[k].0 as int, acc@[k].1 as int) {
                let k = choose|k: int|
                    0 <= k < acc@.len() && e == edge_of(ids@, #[trigger] acc@[k].0 as int, acc@[k].1 as int);
                assert(raw_edges@[k] == e);
            }
        }
    }
    edges
}


/// Row `i` of a CSR adjacency: the neighbours of position `i`.
pub open spec fn csr_row(data: Seq<usize>, off: Seq<usize>, i: int) -> Seq<usize> {
    data.subrange(off[i] as int, off[i + 1] as int)
}

/// A CSR adjacency over `n` positions: monotone offsets spanning `data`,
/// rows sorted ascending, every neighbour a position below `n`.
pub open spec fn csr_shape(data: Seq<usize>, off: Seq<usize>, n: nat) -> bool {
    &&& off.len() == n + 1
    &&& off[0] == 0
    &&& off[n as int] == data.len()
    &&& forall|a: int, b: int| 0 <= a <= b <= n ==> #[trigger] off[a] <= #[trigger] off[b]
    &&& forall|i: int| 0 <= i < n ==> sorted_by_key(#[trigger] csr_row(data, off, i))
    &&& forall|k: int| 0 <= k < data.len() ==> #[trigger] data[k] < n
}

/// Positions `a < b < c` are pairwise neighbours in the CSR adjacency.
pub open spec fn csr_triangle(data: Seq<usize>, off: Seq<usize>, n: nat, a: int, b: int, c: int) -> bool {
    &&& 0 <= a < b
    &&& b < c < n
    &&& csr_row(data, off, a).contains(b as usize)
    &&& csr_row(data, off, a).contains(c as usize)
    &&& csr_row(data, off, b).contains(c as usize)
}

/// `t` is the triangle of some CSR triangle whose first position is below `lim`.
pub open spec fn tri_found_below(
    ids: Seq<NodeId>,
    data: Seq<usize>,
    off: Seq<usize>,
    lim: int,
    t: Triangle,
) -> bool {
    exists|a: int, b: int, c: int|
        #![trigger csr_triangle(data, off, ids.len(), a, b, c), triangle_of(ids, a, b, c)]
        a < lim && csr_triangle(data, off, ids.len(), a, b, c) && t == triangle_of(ids, a, b, c)
}

proof fn lemma_tail_step(s: Seq<usize>, i: int, hi: int, w: usize)
    requires
        0 <= i < hi <= s.len(),
        s.subrange(i, hi).contains(w),
        s[i] != w,
    ensures
        s.subrange(i + 1, hi).contains(w),
{
    let k = choose|k: int| 0 <= k < hi - i && s.subrange(i, hi)[k] == w;
    assert(k != 0);
    assert(s.subrange(i + 1, hi)[k - 1] == w);
}

proof fn lemma_row_lower_bound(data: Seq<usize>, off: Seq<usize>, n: nat, v: int, j: int, w: usize)
    requires
        csr_shape(data, off, n),
        0 <= v < n,
        off[v] <= j < off[v + 1],
        data.subrange(j, off[v + 1] as int).contains(w),
    ensures
        data[j] <= w,
{
    assert(off[v] <= off[v + 1]);
    let row = csr_row(data, off, v);
    assert(sorted_by_key(row));
    let tail = data.subrange(j, off[v + 1] as int);
    let k = choose|k: int| 0 <= k < tail.len() && tail[k] == w;
    let lo = off[v] as int;
    if k > 0 {
        assert(row[j - lo] == data[j]);
        assert(row[j - lo + k] == w);
        assert(row[j - lo].sorts_before(row[j - lo + k]));
    }
}

/// Pushes the triangle `(u, v, w)` for every common neighbour `w > v` of `u`
/// and `v`, by a two-pointer walk over their sorted rows.
fn push_common_above(
    tris: &mut Vec<Triangle>,
    ids: &Vec<NodeId>,
    data: &Vec<usize>,
    off: &Vec<usize>,
    u: usize,
    v: usize,
)
    requires
        csr_shape(data@, off@, ids@.len()),
        u < v < ids@.len(),
    ensures
        forall|t: Triangle|
            final(tris)@.contains(t) <==> (old(tris)@.contains(t) || exists|w: usize|
                v < w && csr_row(data@, off@, u as int).contains(w) && csr_row(
                    data@,
                    off@,
                    v as int,
                ).contains(w) && t == #[trigger] triangle_of(ids@, u as int, v as int, w as int)),
{
    let ghost n = ids@.len();
    let ghost d = data@;
    let ghost o = off@;
    let olen = off.len();
    assert(olen == n + 1);
    let us = off[u];
    let ue = off[u + 1];
    let vs = off[v];
    let ve = off[v + 1];
    proof {
        assert(o[u as int] <= o[u + 1]);
        assert(o[v as int] <= o[v + 1]);
        assert(o[u + 1] <= o[n as int]);
        assert(o[v + 1] <= o[n as int]);
    }
    let ghost a_row = csr_row(d, o, u as int);
    let ghost b_row = csr_row(d, o, v as int);
    let ghost t0 = tris@;
    let mut i = us;
    let mut j = vs;
    while i < ue && j < ve
        invariant
            d == data@,
            o == off@,
            n == ids@.len(),
            csr_shape(d, o, n),
            u < v < n,
            us == o[u as int],
            ue == o[u + 1],
            vs == o[v as int],
            ve == o[v + 1],
            a_row == csr_row(d, o, u as int),
            b_row == csr_row(d, o, v as int),
            us <= i <= ue <= d.len(),
            vs <= j <= ve <= d.len(),
            forall|t: Triangle| t0.contains(t) ==> tris@.contains(t),
            forall|t: Triangle|
                tris@.contains(t) ==> t0.contains(t) || exists|w: usize|
                    v < w && a_row.contains(w) && b_row.contains(w) && t == #[trigger] triangle_of(
                        ids@,
                        u as int,
                        v as int,
                        w as int,
                    ),
            forall|w: usize|
                v < w && a_row.contains(w) && b_row.contains(w) ==> tris@.contains(
                    #[trigger] triangle_of(ids@, u as int, v as int, w as int),
                ) || (d.subrange(i as int, ue as int).contains(w) && d.subrange(
                    j as int,
                    ve as int,
                ).contains(w)),
        decreases (ue - i) + (ve - j),
    {
        let left = data[i];
        let right = data[j];
        if left <= v {
            proof {
                assert forall|w: usize|
                    v < w && a_row.contains(w) && b_row.contains(w) && !tris@.contains(
                        #[trigger] triangle_of(ids@, u as int, v as int, w as int),
                    ) implies d.subrange(i + 1, ue as int).contains(w) by {
                    lemma_tail_step(d, i as int, ue as int, w);
                }
            }
            i += 1;
        } else if right <= v {
            proof {
                assert forall|w: usize|
                    v < w && a_row.contains(w) && b_row.contains(w) && !tris@.contains(
                        #[trigger] triangle_of(ids@, u as int, v as int, w as int),
                    ) implies d.subrange(j + 1, ve as int).contains(w) by {
                    lemma_tail_step(d, j as int, ve as int, w);
                }
            }
            j += 1;
        } else if left == right {
            let ghost before = tris@;
            proof {
                assert(d[i as int] < n);
                assert(a_row[i - us] == left);
                assert(b_row[j - vs] == right);
            }
            tris.push(Triangle { u: ids[u], v: ids[v], w: ids[left] });
            proof {
                let tw = triangle_of(ids@, u as int, v as int, left as int);
                assert(tris@ == before.push(tw));
                assert forall|t: Triangle| tris@.contains(t) implies t0.contains(t) || exists|w: usize|
                    v < w && a_row.contains(w) && b_row.contains(w) && t == #[trigger] triangle_of(
                        ids@,
                        u as int,
                        v as int,
                        w as int,
                    ) by {
                    let k = choose|k: int| 0 <= k < tris@.len() && tris@[k] == t;
                    if k < before.len() {
                        assert(before[k] == t);
                        assert(before.contains(t));
                    } else {
                        assert(t == tw);
                    }
                }
                assert forall|t: Triangle| t0.contains(t) implies tris@.contains(t) by {
                    assert(before.contains(t));
                    let k = choose|k: int| 0 <= k < before.len() && before[k] == t;
                    assert(tris@[k] == t);
                }
                assert(tris@[before.len() as int] == tw);
                assert forall|w: usize|
                    v < w && a_row.contains(w) && b_row.contains(w) && !tris@.contains(
                        #[trigger] triangle_of(ids@, u as int, v as int, w as int),
                    ) implies d.subrange(i + 1, ue as int).contains(w) && d.subrange(
                    j + 1,
                    ve as int,
                ).contains(w) by {
                    assert(!before.contains(triangle_of(ids@, u as int, v as int, w as int))) by {
                        if before.contains(triangle_of(ids@, u as int, v as int, w as int)) {
                            let k = choose|k: int|
                                0 <= k < before.len() && before[k] == triangle_of(
                                    ids@,
                                    u as int,
                                    v as int,
                                    w as int,
                                );
                            assert(tris@[k] == before[k]);
                        }
                    }
                    assert(w != left);
                    lemma_tail_step(d, i as int, ue as int, w);
                    lemma_tail_step(d, j as int, ve as int, w);
                }
            }
            i += 1;
            j += 1;
        } else if left < right {
            proof {
                assert forall|w: usize|
                    v < w && a_row.contains(w) && b_row.contains(w) && !tris@.contains(
                        #[trigger] triangle_of(ids@, u as int, v as int, w as int),
                    ) implies d.subrange(i + 1, ue as int).contains(w) by {
                    lemma_row_lower_bound(d, o, n, v as int, j as int, w);
                    lemma_tail_step(d, i as int, ue as int, w);
                }
            }
            i += 1;
        } else {
            proof {
                assert forall|w: usize|
                    v < w && a_row.contains(w) && b_row.contains(w) && !tris@.contains(
                        #[trigger] triangle_of(ids@, u as int, v as int, w as int),
                    ) implies d.subrange(j + 1, ve as int).contains(w) by {
                    lemma_row_lower_bound(d, o, n, u as int, i as int, w);
                    lemma_tail_step(d, j as int, ve as int, w);
                }
            }
            j += 1;
        }
    }
    proof {
        assert forall|w: usize|
            v < w && a_row.contains(w) && b_row.contains(w) implies tris@.contains(
            #[trigger] triangle_of(ids@, u as int, v as int, w as int),
        ) by {
            if !tris@.contains(triangle_of(ids@, u as int, v as int, w as int)) {
                let s1 = d.subrange(i as int, ue as int);
                let s2 = d.subrange(j as int, ve as int);
                assert(s1.contains(w) && s2.contains(w));
                assert(s1.len() == 0 || s2.len() == 0);
            }
        }
    }
}


/// `t` has the form `(u, b, c)` with `b` among the first entries of row `u`
/// up to index `p`, `u < b < c`, and `c` a neighbour of both `u` and `b`.
pub open spec fn tri_found_partial(
    ids: Seq<NodeId>,
    data: Seq<usize>,
    off: Seq<usize>,
    u: int,
    p: int,
    t: Triangle,
) -> bool {
    exists|b: usize, c: usize|
        #![trigger triangle_of(ids, u, b as int, c as int)]
        data.subrange(off[u] as int, p).contains(b) && u < b && b < c && csr_row(data, off, u).contains(c)
            && csr_row(data, off, b as int).contains(c) && t == triangle_of(ids, u, b as int, c as int)
}

/// All triangles of a CSR adjacency, sorted by identifiers and without repeats.
fn collect_triangles(ids: &Vec<NodeId>, data: &Vec<usize>, off: &Vec<usize>) -> (tris: Vec<Triangle>)
    requires
        csr_shape(data@, off@, ids@.len()),
    ensures
        strictly_sorted(tris@),
        forall|t: Triangle| tris@.contains(t) <==> tri_found_below(ids@, data@, off@, ids@.len() as int, t),
{
    let ghost d = data@;
    let ghost o = off@;
    let n = ids.len();
    let olen = off.len();
    let mut found: Vec<Triangle> = Vec::new();
    let mut u: usize = 0;
    while u < n
        invariant
            d == data@,
            o == off@,
            n == ids@.len(),
            olen == n + 1,
            csr_shape(d, o, n as nat),
            u <= n,
            forall|t: Triangle| found@.contains(t) <==> tri_found_below(ids@, d, o, u as int, t),
        decreases n - u,
    {
        let us = off[u];
        let ue = off[u + 1];
        proof {
            assert(o[u as int] <= o[u + 1]);
            assert(o[u + 1] <= o[n as int]);
        }
        let mut p = us;
        while p < ue
            invariant
                d == data@,
                o == off@,
                n == ids@.len(),
                olen == n + 1,
                csr_shape(d, o, n as nat),
                u < n,
                us == o[u as int],
                ue == o[u + 1],
                us <= p <= ue <= d.len(),
                forall|t: Triangle|
                    found@.contains(t) <==> (tri_found_below(ids@, d, o, u as int, t) || tri_found_partial(
                        ids@,
                        d,
                        o,
                        u as int,
                        p as int,
                        t,
                    )),
            decreases ue - p,
        {
            let v = data[p];
            let ghost before = found@;
            proof {
                assert(d[p as int] < n);
            }
            if v > u {
                push_common_above(&mut found, ids, data, off, u, v);
            }
            proof {
                let pre = d.subrange(us as int, p as int);
                let pre1 = d.subrange(us as int, p + 1);
                assert(pre1 =~= pre.push(v));
                assert forall|b: usize| pre1.contains(b) <==> (pre.contains(b) || b == v) by {
                    if pre1.contains(b) {
                        let k = choose|k: int| 0 <= k < pre1.len() && pre1[k] == b;
                        if k < pre.len() {
                            assert(pre[k] == b);
                        }
                    }
                    if pre.contains(b) {
                        let k = choose|k: int| 0 <= k < pre.len() && pre[k] == b;
                        assert(pre1[k] == b);
                    }
                    if b == v {
                        assert(pre1[pre.len() as int] == b);
                    }
                }
                assert forall|t: Triangle|
                    found@.contains(t) <==> (tri_found_below(ids@, d, o, u as int, t) || tri_found_partial(
                        ids@,
                        d,
                        o,
                        u as int,
                        p + 1,
                        t,
                    )) by {
                    if tri_found_partial(ids@, d, o, u as int, p + 1, t) {
                        let (b, c) = choose|b: usize, c: usize|
                            pre1.contains(b) && u < b && b < c && csr_row(d, o, u as int).contains(c)
                                && csr_row(d, o, b as int).contains(c) && t == #[trigger] triangle_of(
                                ids@,
                                u as int,
                                b as int,
                                c as int,
                            );
                        if pre.contains(b) {
                            assert(tri_found_partial(ids@, d, o, u as int, p as int, t));
                        } else {
                            assert(b == v);
                            assert(found@.contains(t));
                        }
                    }
                    if tri_found_partial(ids@, d, o, u as int, p as int, t) {
                        let (b, c) = choose|b: usize, c: usize|
                            pre.contains(b) && u < b && b < c && csr_row(d, o, u as int).contains(c)
                                && csr_row(d, o, b as int).contains(c) && t == #[trigger] triangle_of(
                                ids@,
                                u as int,
                                b as int,
                                c as int,
                            );
                        assert(pre1.contains(b));
                        assert(tri_found_partial(ids@, d, o, u as int, p + 1, t));
                    }
                    if found@.contains(t) && !before.contains(t) {
                        assert(v > u);
                        let w = choose|w: usize|
                            v < w && csr_row(d, o, u as int).contains(w) && csr_row(
                                d,
                                o,
                                v as int,
                            ).contains(w) && t == #[trigger] triangle_of(ids@, u as int, v as int, w as int);
                        assert(pre1.contains(v));
                        assert(tri_found_partial(ids@, d, o, u as int, p + 1, t));
                    }
                }
            }
            p += 1;
        }
        proof {
            assert(d.subrange(us as int, ue as int) == csr_row(d, o, u as int));
            assert forall|t: Triangle|
                found@.contains(t) <==> tri_found_below(ids@, d, o, u + 1, t) by {
                if tri_found_partial(ids@, d, o, u as int, ue as int, t) {
                    let (b, c) = choose|b: usize, c: usize|
                        d.subrange(us as int, ue as int).contains(b) && u < b && b < c && csr_row(
                            d,
                            o,
                            u as int,
                        ).contains(c) && csr_row(d, o, b as int).contains(c) && t == #[trigger] triangle_of(
                            ids@,
                            u as int,
                            b as int,
                            c as int,
                        );
                    let row = csr_row(d, o, u as int);
                    let kc = choose|kc: int| 0 <= kc < row.len() && row[kc] == c;
                    assert(d[us + kc] == c);
                    assert(c < n);
                    assert(csr_triangle(d, o, n as nat, u as int, b as int, c as int));
                    assert(tri_found_below(ids@, d, o, u + 1, t));
                }
                if tri_found_below(ids@, d, o, u as int, t) {
                    let (a, b, c) = choose|a: int, b: int, c: int|
                        a < u && csr_triangle(d, o, n as nat, a, b, c) && t == triangle_of(ids@, a, b, c);
                    assert(tri_found_below(ids@, d, o, u + 1, t));
                }
                if tri_found_below(ids@, d, o, u + 1, t) {
                    let (a, b, c) = choose|a: int, b: int, c: int|
                        a < u + 1 && csr_triangle(d, o, n as nat, a, b, c) && t == triangle_of(ids@, a, b, c);
                    if a < u {
                        assert(tri_found_below(ids@, d, o, u as int, t));
                    } else {
                        assert(a == u);
                        assert(t == triangle_of(ids@, u as int, (b as usize) as int, (c as usize) as int));
                        assert(tri_found_partial(ids@, d, o, u as int, ue as int, t));
                    }
                }
            }
        }
        u += 1;
    }
    let sorted = merge_sort(&found);
    let tris = dedup_sorted(&sorted);
    proof {
        assert forall|t: Triangle| tris@.contains(t) <==> found@.contains(t) by {
            assert(sorted@.contains(t) == (sorted@.to_multiset().count(t) > 0));
            assert(found@.contains(t) == (found@.to_multiset().count(t) > 0));
        }
    }
    tris
}


/// No two identifiers share a raw value.
pub open spec fn distinct_ids(ids: Seq<NodeId>) -> bool {
    forall|i: int, j: int| 0 <= i < j < ids.len() ==> (#[trigger] ids[i]).raw() != (#[trigger] ids[j]).raw()
}

/// The candidate edges that position `i` with neighbour list `nb` offers:
/// in the order of `nb`, the pair (i, position of v) for each neighbour `v`
/// that has a larger identifier than `ids[i]` and is one of `ids`.
pub open spec fn row_candidates(ids: Seq<NodeId>, i: int, nb: Seq<NodeId>) -> Seq<(usize, usize)>
    decreases nb.len(),
{
    if nb.len() == 0 {
        Seq::empty()
    } else {
        let base = row_candidates(ids, i, nb.drop_last());
        let v = nb.last();
        if ids[i].raw() < v.raw() && ids.contains(v) {
            base.push((i as usize, pos_of(ids, v) as usize))
        } else {
            base
        }
    }
}

/// The candidate edges of all positions, position by position.
pub open spec fn graph_candidates(ids: Seq<NodeId>, nbs: Seq<Seq<NodeId>>) -> Seq<(usize, usize)>
    decreases nbs.len(),
{
    if nbs.len() == 0 {
        Seq::empty()
    } else {
        graph_candidates(ids, nbs.drop_last()) + row_candidates(ids, nbs.len() - 1, nbs.last())
    }
}

/// The candidates that a position offers are exactly the pairs towards its
/// listed neighbours that are nodes and have a larger identifier.
proof fn lemma_row_candidates_members(ids: Seq<NodeId>, i: int, nb: Seq<NodeId>)
    requires
        distinct_ids(ids),
        0 <= i < ids.len(),
        ids.len() <= usize::MAX,
    ensures
        forall|p: (usize, usize)|
            row_candidates(ids, i, nb).contains(p) <==> (p.0 == i && p.1 < ids.len() && ids[i].raw()
                < ids[p.1 as int].raw() && nb.contains(ids[p.1 as int])),
    decreases nb.len(),
{
    if nb.len() > 0 {
        let init = nb.drop_last();
        let v = nb.last();
        lemma_row_candidates_members(ids, i, init);
        let base = row_candidates(ids, i, init);
        assert forall|x: NodeId| nb.contains(x) <==> (init.contains(x) || x == v) by {
            if nb.contains(x) {
                let k = choose|k: int| 0 <= k < nb.len() && nb[k] == x;
                if k < nb.len() - 1 {
                    assert(init[k] == x);
                }
            }
            if init.contains(x) {
                let k = choose|k: int| 0 <= k < init.len() && init[k] == x;
                assert(nb[k] == x);
            }
            if x == v {
                assert(nb[nb.len() - 1] == x);
            }
        }
        if ids[i].raw() < v.raw() && ids.contains(v) {
            let q = pos_of(ids, v);
            let e = (i as usize, q as usize);
            assert(0 <= q < ids.len() && ids[q] == v);
            assert forall|p: (usize, usize)| base.push(e).contains(p) <==> (base.contains(p) || p == e) by {
                if base.push(e).contains(p) {
                    let k = choose|k: int| 0 <= k < base.push(e).len() && base.push(e)[k] == p;
                    if k < base.len() {
                        assert(base[k] == p);
                    }
                }
                if base.contains(p) {
                    let k = choose|k: int| 0 <= k < base.len() && base[k] == p;
                    assert(base.push(e)[k] == p);
                }
                if p == e {
                    assert(base.push(e)[base.len() as int] == p);
                }
            }
            assert(row_candidates(ids, i, nb) == base.push(e));
            assert forall|p: (usize, usize)|
                row_candidates(ids, i, nb).contains(p) <==> (p.0 == i && p.1 < ids.len() && ids[i].raw()
                    < ids[p.1 as int].raw() && nb.contains(ids[p.1 as int])) by {
                assert(base.push(e).contains(p) == (base.contains(p) || p == e));
                assert(nb.contains(ids[p.1 as int]) == (init.contains(ids[p.1 as int]) || ids[p.1 as int] == v));
                assert((i as usize) as int == i);
                assert((q as usize) as int == q);
                if p.0 == i && p.1 < ids.len() && ids[p.1 as int] == v {
                    let j = p.1 as int;
                    if j < q {
                        assert(ids[j].raw() != ids[q].raw());
                    } else if q < j {
                        assert(ids[q].raw() != ids[j].raw());
                    }
                    assert(p.0 == e.0 && p.1 == e.1);
                }
                if p == e {
                    assert(nb.contains(ids[p.1 as int]));
                }
            }
        } else {
            assert forall|p: (usize, usize)|
                (p.0 == i && p.1 < ids.len() && ids[i].raw() < ids[p.1 as int].raw()) implies ids[p.1 as int]
                != v by {
                if ids[p.1 as int] == v {
                    assert(ids.contains(v));
                }
            }
            assert(row_candidates(ids, i, nb) == base);
        }
    }
}

/// The candidate edges of a neighbour graph are exactly the pairs
/// `(i, j)` of positions such that `ids[j]` is listed among the neighbours of
/// `ids[i]` and has a larger identifier: every such neighbour gives a
/// candidate, and nothing else does.
pub proof fn lemma_graph_candidates_members(ids: Seq<NodeId>, nbs: Seq<Seq<NodeId>>)
    requires
        distinct_ids(ids),
        nbs.len() <= ids.len(),
        ids.len() <= usize::MAX,
    ensures
        forall|p: (usize, usize)|
            graph_candidates(ids, nbs).contains(p) <==> (p.0 < nbs.len() && p.1 < ids.len() && ids[p.0 as int].raw()
                < ids[p.1 as int].raw() && nbs[p.0 as int].contains(ids[p.1 as int])),
    decreases nbs.len(),
{
    if nbs.len() > 0 {
        let init = nbs.drop_last();
        let last = nbs.len() - 1;
        lemma_graph_candidates_members(ids, init);
        lemma_row_candidates_members(ids, last, nbs.last());
        let a = graph_candidates(ids, init);
        let b = row_candidates(ids, last, nbs.last());
        assert forall|p: (usize, usize)| (a + b).contains(p) <==> (a.contains(p) || b.contains(p)) by {
            if (a + b).contains(p) {
                let k = choose|k: int| 0 <= k < (a + b).len() && (a + b)[k] == p;
                if k < a.len() {
                    assert(a[k] == p);
                } else {
                    assert(b[k - a.len()] == p);
                }
            }
            if a.contains(p) {
                let k = choose|k: int| 0 <= k < a.len() && a[k] == p;
                assert((a + b)[k] == p);
            }
            if b.contains(p) {
                let k = choose|k: int| 0 <= k < b.len() && b[k] == p;
                assert((a + b)[k + a.len()] == p);
            }
        }
        assert(graph_candidates(ids, nbs) == a + b);
        assert forall|p: (usize, usize)|
            graph_candidates(ids, nbs).contains(p) <==> (p.0 < nbs.len() && p.1 < ids.len() && ids[p.0 as int].raw()
                < ids[p.1 as int].raw() && nbs[p.0 as int].contains(ids[p.1 as int])) by {
            assert((a + b).contains(p) == (a.contains(p) || b.contains(p)));
            if (p.0 as int) < last {
                assert(nbs[p.0 as int] == init[p.0 as int]);
            }
            if p.0 as int == last {
                assert(nbs[last] == nbs.last());
            }
        }
    }
}

/// In a sorted index, two entries `p < q` with one identifier and different
/// rows have, somewhere between them, two neighbouring entries with one
/// identifier and different rows.
proof fn lemma_index_run(index: Seq<IdSlot>, p: int, q: int)
    requires
        sorted_by_key(index),
        0 <= p < q < index.len(),
        index[p].id == index[q].id,
        index[p].row != index[q].row,
    ensures
        exists|k: int|
            p <= k < q && (#[trigger] index[k]).id == index[k + 1].id && index[k].row != index[k + 1].row,
    decreases q - p,
{
    assert(index[p].sorts_before(index[p + 1]));
    if q > p + 1 {
        assert(index[p + 1].sorts_before(index[q]));
        if index[p + 1].row == index[p].row {
            lemma_index_run(index, p + 1, q);
        } else {
            assert(index[p].id == index[p + 1].id);
        }
    }
}

/// Two positions of an index without neighbouring entries that share an
/// identifier with different rows hold different identifiers.
proof fn lemma_index_pair(index: Seq<IdSlot>, ids: Seq<NodeId>, i: int, j: int)
    requires
        indexes(index, ids),
        forall|k: int|
            0 <= k < index.len() - 1 ==> !((#[trigger] index[k]).id == index[k + 1].id && index[k].row
                != index[k + 1].row),
        0 <= i < j < ids.len(),
        ids.len() < usize::MAX,
    ensures
        ids[i].raw() != ids[j].raw(),
{
    if ids[i].raw() == ids[j].raw() {
        let si = slot_of(ids, i);
        let sj = slot_of(ids, j);
        assert(index.contains(si));
        assert(index.contains(sj));
        let p = choose|p: int| 0 <= p < index.len() && index[p] == si;
        let q = choose|q: int| 0 <= q < index.len() && index[q] == sj;
        assert(si.row != sj.row);
        if q < p {
            assert(index[q].sorts_before(index[p]));
        }
        assert(p != q);
        lemma_index_run(index, p, q);
        let k = choose|k: int|
            p <= k < q && (#[trigger] index[k]).id == index[k + 1].id && index[k].row != index[k + 1].row;
        assert(!(index[k].id == index[k + 1].id && index[k].row != index[k + 1].row));
    }
}

/// An index in which no two neighbouring entries share an identifier with
/// different rows indexes distinct identifiers.
proof fn lemma_index_distinct(index: Seq<IdSlot>, ids: Seq<NodeId>)
    requires
        indexes(index, ids),
        forall|k: int|
            0 <= k < index.len() - 1 ==> !((#[trigger] index[k]).id == index[k + 1].id && index[k].row
                != index[k + 1].row),
        ids.len() < usize::MAX,
    ensures
        distinct_ids(ids),
{
    assert forall|i: int, j: int| 0 <= i < j < ids.len() implies (#[trigger] ids[i]).raw() != (
    #[trigger] ids[j]).raw() by {
        lemma_index_pair(index, ids, i, j);
    }
}

/// Candidate edges of the complex over `node_ids` from the neighbour lists
/// of the nodes (`neighbors[i]` lists those of `node_ids[i]`): in order, for
/// each node and each neighbour with a larger identifier that is one of
/// `node_ids`, the pair of their positions. `None` when `node_ids` repeats
/// an identifier.
pub fn neighbor_candidates(node_ids: &Vec<NodeId>, neighbors: &Vec<Vec<NodeId>>) -> (r: Option<
    Vec<(usize, usize)>,
>)
    requires
        neighbors@.len() == node_ids@.len(),
        node_ids@.len() < usize::MAX,
    ensures
        r is Some <==> distinct_ids(node_ids@),
        r matches Some(c) ==> c@ == graph_candidates(
            node_ids@,
            neighbors@.map_values(|l: Vec<NodeId>| l@),
        ),
        r matches Some(c) ==> pairs_in_range(c@, node_ids@.len()),
        r matches Some(c) ==> forall|p: (usize, usize)|
            c@.contains(p) <==> (p.0 < node_ids@.len() && p.1 < node_ids@.len() && node_ids@[p.0 as int].raw()
                < node_ids@[p.1 as int].raw() && neighbors@[p.0 as int]@.contains(node_ids@[p.1 as int])),
{
    let ghost ids = node_ids@;
    let ghost nbs = neighbors@.map_values(|l: Vec<NodeId>| l@);
    let index = index_ids(node_ids);
    let mut k: usize = 0;
    while k + 1 < index.len()
        invariant
            ids == node_ids@,
            ids.len() < usize::MAX,
            index@.len() == ids.len(),
            k <= index@.len(),
            indexes(index@, ids),
            forall|k2: int|
                0 <= k2 < k && k2 < index@.len() - 1 ==> !((#[trigger] index@[k2]).id == index@[k2 + 1].id
                    && index@[k2].row != index@[k2 + 1].row),
        decreases index@.len() - k,
    {
        if index[k].id == index[k + 1].id && index[k].row != index[k + 1].row {
            proof {
                let a = index@[k as int];
                let b = index@[k as int + 1];
                assert(index@.contains(a));
                assert(index@.contains(b));
                let i = choose|i: int| 0 <= i < ids.len() && a == #[trigger] slot_of(ids, i);
                let j = choose|j: int| 0 <= j < ids.len() && b == #[trigger] slot_of(ids, j);
                if i < j {
                    assert(ids[i].raw() == ids[j].raw());
                } else {
                    assert(ids[j].raw() == ids[i].raw());
                }
            }
            return None;
        }
        k += 1;
    }
    proof {
        lemma_index_distinct(index@, ids);
    }
    let mut out: Vec<(usize, usize)> = Vec::new();
    let mut i: usize = 0;
    while i < node_ids.len()
        invariant
            ids == node_ids@,
            nbs == neighbors@.map_values(|l: Vec<NodeId>| l@),
            neighbors@.len() == ids.len(),
            ids.len() < usize::MAX,
            indexes(index@, ids),
            distinct_ids(ids),
            i <= ids.len(),
            out@ == graph_candidates(ids, nbs.take(i as int)),
            pairs_in_range(out@, ids.len()),
        decreases ids.len() - i,
    {
        let u = node_ids[i];
        let nb = &neighbors[i];
        let ghost before = out@;
        let mut j: usize = 0;
        while j < nb.len()
            invariant
                ids == node_ids@,
                ids.len() < usize::MAX,
                indexes(index@, ids),
                distinct_ids(ids),
                i < ids.len(),
                u == ids[i as int],
                j <= nb@.len(),
                out@ == before + row_candidates(ids, i as int, nb@.take(j as int)),
                pairs_in_range(out@, ids.len()),
            decreases nb@.len() - j,
        {
            let v = nb[j];
            proof {
                assert(nb@.take(j as int + 1).drop_last() =~= nb@.take(j as int));
            }
            if u.get() < v.get() {
                let found = lookup_vertex(&index, v.get());
                match found {
                    Some(row) => {
                        proof {
                            lemma_lookup_row(index@, ids, v.raw(), row);
                            NodeId::lemma_raw_injective(ids[row as int], v);
                            assert(ids.contains(v));
                            let p = pos_of(ids, v);
                            NodeId::lemma_raw_injective(ids[p], v);
                        }
                        out.push((i, row));
                        proof {
                            assert(out@ =~= before + row_candidates(ids, i as int, nb@.take(j as int + 1)));
                        }
                    },
                    None => {
                        proof {
                            lemma_lookup_missing(index@, ids, v.raw());
                            if ids.contains(v) {
                                let p = choose|p: int| 0 <= p < ids.len() && ids[p] == v;
                                assert(ids[p].raw() != v.raw());
                            }
                            assert(out@ =~= before + row_candidates(ids, i as int, nb@.take(j as int + 1)));
                        }
                    },
                }
            } else {
                proof {
                    assert(out@ =~= before + row_candidates(ids, i as int, nb@.take(j as int + 1)));
                }
            }
            j += 1;
        }
        proof {
            assert(nb@.take(j as int) =~= nb@);
            assert(nbs[i as int] == nb@);
            assert(nbs.take(i as int + 1).drop_last() =~= nbs.take(i as int));
            assert(nbs.take(i as int + 1).last() == nb@);
        }
        i += 1;
    }
    proof {
        assert(nbs.take(i as int) =~= nbs);
        lemma_graph_candidates_members(ids, nbs);
    }
    Some(out)
}

/// Positions `a < b < c` below `n` are pairwise joined by accepted edges.
pub open spec fn rips_triangle(acc: Seq<(usize, usize)>, n: nat, a: int, b: int, c: int) -> bool {
    &&& 0 <= a < b
    &&& b < c < n
    &&& adjacent(acc, a, b)
    &&& adjacent(acc, a, c)
    &&& adjacent(acc, b, c)
}

/// Borrowed CSR adjacency view: the neighbours of position `i` are
/// `data[offsets[i]..offsets[i + 1]]`.
pub struct CsrAdjacency<'a> {
    /// Flat neighbour positions in row-major order.
    pub data: &'a [usize],
    /// Row offsets, one more than the number of vertices.
    pub offsets: &'a [usize],
}

/// Vietoris-Rips complex capped at dimension 2.
///
/// - 0-simplices: all nodes
/// - 1-simplices: the accepted edges, oriented from the smaller identifier
/// - 2-simplices: the triangles whose three sides are accepted edges
pub struct RipsComplex {
    dim0: Vec<NodeId>,
    dim1: Vec<Edge>,
    dim2: Vec<Triangle>,
    adjacency_data: Vec<usize>,
    adjacency_offsets: Vec<usize>,
}

impl RipsComplex {
    /// The 0-simplices, in node order.
    pub closed spec fn vertices(&self) -> Seq<NodeId> {
        self.dim0@
    }

    /// The 1-simplices, sorted by identifiers.
    pub closed spec fn edges(&self) -> Seq<Edge> {
        self.dim1@
    }

    /// The 2-simplices, sorted by identifiers.
    pub closed spec fn triangles(&self) -> Seq<Triangle> {
        self.dim2@
    }

    /// The flat CSR neighbour payload.
    pub closed spec fn csr_data(&self) -> Seq<usize> {
        self.adjacency_data@
    }

    /// The CSR row offsets.
    pub closed spec fn csr_offsets(&self) -> Seq<usize> {
        self.adjacency_offsets@
    }

    /// Structural invariant: distinct vertices, sorted repeat-free simplices
    /// over the vertices, and a consistent CSR adjacency.
    pub open spec fn wf(&self) -> bool {
        let ids = self.vertices();
        let es = self.edges();
        let ts = self.triangles();
        &&& ids.len() < usize::MAX
        &&& distinct_ids(ids)
        &&& strictly_sorted(es)
        &&& forall|i: int|
            0 <= i < es.len() ==> (#[trigger] es[i]).u.raw() < es[i].v.raw() && ids.contains(es[i].u)
                && ids.contains(es[i].v)
        &&& strictly_sorted(ts)
        &&& forall|i: int|
            0 <= i < ts.len() ==> ids.contains((#[trigger] ts[i]).u) && ids.contains(ts[i].v) && ids.contains(
                ts[i].w,
            )
        &&& csr_shape(self.csr_data(), self.csr_offsets(), ids.len())
    }

    /// Builds the complex over `node_ids` from the candidate edges: pairs of
    /// positions whose distance is within the scale. A candidate is kept when
    /// its first endpoint has the smaller identifier.
    pub fn from_accepted_edges(node_ids: Vec<NodeId>, candidates: &Vec<(usize, usize)>) -> (c: RipsComplex)
        requires
            pairs_in_range(candidates@, node_ids@.len()),
            distinct_ids(node_ids@),
            node_ids@.len() + 1 <= usize::MAX,
            2 * candidates@.len() <= usize::MAX,
        ensures
            c.wf(),
            c.vertices() == node_ids@,
            ({
                let acc = kept_edges(node_ids@, candidates@);
                &&& forall|e: Edge|
                    c.edges().contains(e) <==> exists|k: int|
                        0 <= k < acc.len() && e == edge_of(
                            node_ids@,
                            #[trigger] acc[k].0 as int,
                            acc[k].1 as int,
                        )
                &&& forall|t: Triangle|
                    c.triangles().contains(t) <==> exists|a: int, b: int, d: int|
                        rips_triangle(acc, node_ids@.len(), a, b, d) && t == #[trigger] triangle_of(
                            node_ids@,
                            a,
                            b,
                            d,
                        )
                &&& forall|i: int|
                    0 <= i <= node_ids@.len() ==> #[trigger] c.csr_offsets()[i] == deg_sum(acc, i)
                &&& forall|i: int|
                    0 <= i < node_ids@.len() ==> (#[trigger] csr_row(
                        c.csr_data(),
                        c.csr_offsets(),
                        i,
                    )).to_multiset() == nbrs(acc, i).to_multiset()
            }),
            candidates@.no_duplicates() ==> c.csr_data().len() == 2 * c.edges().len(),
    {
        let n = node_ids.len();
        let acc = keep_edges(&node_ids, candidates);
        proof {
            lemma_kept_edges(node_ids@, candidates@);
        }
        let (data, offsets) = build_csr(n, &acc);
        proof {
            assert forall|a: int, b: int| 0 <= a <= b <= n implies #[trigger] offsets@[a] <= #[trigger] offsets@[b] by {
                lemma_deg_sum_mono(acc@, a, b);
            }
        }
        let dim1 = collect_edges(&node_ids, &acc);
        let dim2 = collect_triangles(&node_ids, &data, &offsets);
        let ghost ids = node_ids@;
        let ghost d = data@;
        let ghost o = offsets@;
        proof {
            assert forall|i: int, x: usize| 0 <= i < n implies #[trigger] csr_row(d, o, i).contains(x)
                == adjacent(acc@, i, x as int) by {
                let row = csr_row(d, o, i);
                assert(row.contains(x) == (row.to_multiset().count(x) > 0));
                assert(nbrs(acc@, i).contains(x) == (nbrs(acc@, i).to_multiset().count(x) > 0));
                lemma_nbrs_contains(acc@, i, x);
            }
            assert forall|t: Triangle| dim2@.contains(t) <==> exists|a: int, b: int, c: int|
                rips_triangle(acc@, n as nat, a, b, c) && t == #[trigger] triangle_of(ids, a, b, c) by {
                if tri_found_below(ids, d, o, n as int, t) {
                    let (a, b, c) = choose|a: int, b: int, c: int|
                        a < n && csr_triangle(d, o, n as nat, a, b, c) && t == triangle_of(ids, a, b, c);
                    assert(csr_row(d, o, a).contains(b as usize));
                    assert(csr_row(d, o, a).contains(c as usize));
                    assert(csr_row(d, o, b).contains(c as usize));
                    assert(rips_triangle(acc@, n as nat, a, b, c));
                }
                if exists|a: int, b: int, c: int|
                    rips_triangle(acc@, n as nat, a, b, c) && t == #[trigger] triangle_of(ids, a, b, c) {
                    let (a, b, c) = choose|a: int, b: int, c: int|
                        rips_triangle(acc@, n as nat, a, b, c) && t == #[trigger] triangle_of(ids, a, b, c);
                    assert(csr_row(d, o, a).contains(b as usize));
                    assert(csr_row(d, o, a).contains(c as usize));
                    assert(csr_row(d, o, b).contains(c as usize));
                    assert(csr_triangle(d, o, n as nat, a, b, c));
                }
            }
        }
        let c = RipsComplex {
            dim0: node_ids,
            dim1,
            dim2,
            adjacency_data: data,
            adjacency_offsets: offsets,
        };
        proof {
            let es = c.edges();
            assert forall|i: int| 0 <= i < es.len() implies (#[trigger] es[i]).u.raw() < es[i].v.raw()
                && ids.contains(es[i].u) && ids.contains(es[i].v) by {
                assert(es.contains(es[i]));
                let k = choose|k: int|
                    0 <= k < acc@.len() && es[i] == edge_of(ids, #[trigger] acc@[k].0 as int, acc@[k].1 as int);
                assert(acc@.contains(acc@[k]));
                assert(ids[acc@[k].0 as int] == es[i].u);
                assert(ids[acc@[k].1 as int] == es[i].v);
            }
            if candidates@.no_duplicates() {
                lemma_kept_no_duplicates(ids, candidates@);
                lemma_edge_count(ids, acc@, es);
            }
            let ts = c.triangles();
            assert forall|i: int| 0 <= i < ts.len() implies ids.contains((#[trigger] ts[i]).u) && ids.contains(
                ts[i].v,
            ) && ids.contains(ts[i].w) by {
                assert(ts.contains(ts[i]));
                let (a, b, cc) = choose|a: int, b: int, cc: int|
                    rips_triangle(acc@, n as nat, a, b, cc) && ts[i] == #[trigger] triangle_of(ids, a, b, cc);
                assert(ids[a] == ts[i].u);
                assert(ids[b] == ts[i].v);
                assert(ids[cc] == ts[i].w);
            }
        }
        c
    }
}


impl RipsComplex {
    /// The simplices of dimension `d` (0, 1 or 2), each as its list of
    /// vertices; no simplices for any other dimension.
    pub fn simplices_of_dim(&self, d: usize) -> (r: Vec<Vec<NodeId>>)
        ensures
            d == 0 ==> r@.len() == self.vertices().len() && forall|i: int|
                0 <= i < r@.len() ==> (#[trigger] r@[i])@ == seq![self.vertices()[i]],
            d == 1 ==> r@.len() == self.edges().len() && forall|i: int|
                0 <= i < r@.len() ==> (#[trigger] r@[i])@ == seq![self.edges()[i].u, self.edges()[i].v],
            d == 2 ==> r@.len() == self.triangles().len() && forall|i: int|
                0 <= i < r@.len() ==> (#[trigger] r@[i])@ == seq![
                    self.triangles()[i].u,
                    self.triangles()[i].v,
                    self.triangles()[i].w,
                ],
            d > 2 ==> r@.len() == 0,
    {
        let mut r: Vec<Vec<NodeId>> = Vec::new();
        if d == 0 {
            let mut i: usize = 0;
            while i < self.dim0.len()
                invariant
                    i <= self.dim0@.len(),
                    r@.len() == i,
                    forall|j: int| 0 <= j < i ==> (#[trigger] r@[j])@ == seq![self.dim0@[j]],
                decreases self.dim0@.len() - i,
            {
                let mut s: Vec<NodeId> = Vec::new();
                s.push(self.dim0[i]);
                r.push(s);
                i += 1;
            }
        } else if d == 1 {
            let mut i: usize = 0;
            while i < self.dim1.len()
                invariant
                    i <= self.dim1@.len(),
                    r@.len() == i,
                    forall|j: int| 0 <= j < i ==> (#[trigger] r@[j])@ == seq![self.dim1@[j].u, self.dim1@[j].v],
                decreases self.dim1@.len() - i,
            {
                let e = self.dim1[i];
                let mut s: Vec<NodeId> = Vec::new();
                s.push(e.u);
                s.push(e.v);
                r.push(s);
                i += 1;
            }
        } else if d == 2 {
            let mut i: usize = 0;
            while i < self.dim2.len()
                invariant
                    i <= self.dim2@.len(),
                    r@.len() == i,
                    forall|j: int|
                        0 <= j < i ==> (#[trigger] r@[j])@ == seq![
                            self.dim2@[j].u,
                            self.dim2@[j].v,
                            self.dim2@[j].w,
                        ],
                decreases self.dim2@.len() - i,
            {
                let t = self.dim2[i];
                let mut s: Vec<NodeId> = Vec::new();
                s.push(t.u);
                s.push(t.v);
                s.push(t.w);
                r.push(s);
                i += 1;
            }
        }
        r
    }

    /// Number of simplices of each dimension.
    pub fn counts(&self) -> (r: (usize, usize, usize))
        ensures
            r.0 == self.vertices().len(),
            r.1 == self.edges().len(),
            r.2 == self.triangles().len(),
    {
        (self.dim0.len(), self.dim1.len(), self.dim2.len())
    }

    /// The CSR adjacency backing used for edge and triangle traversal.
    ///
    /// Of a well-formed complex: one offset more than vertices, offsets
    /// non-decreasing from zero, the last offset the payload length.
    pub fn adjacency_csr(&self) -> (c: CsrAdjacency<'_>)
        ensures
            c.data@ == self.csr_data(),
            c.offsets@ == self.csr_offsets(),
            self.wf() ==> c.offsets@.len() == self.vertices().len() + 1 && c.offsets@[0] == 0
                && c.offsets@[self.vertices().len() as int] == c.data@.len() && forall|a: int, b: int|
                0 <= a <= b < c.offsets@.len() ==> #[trigger] c.offsets@[a] <= #[trigger] c.offsets@[b],
    {
        CsrAdjacency { data: self.adjacency_data.as_slice(), offsets: self.adjacency_offsets.as_slice() }
    }
}

} // verus!
