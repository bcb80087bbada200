//! Scalar Fisher metric per edge `(i, j)`, kept as canonical pairs (smaller
//! identifier first) sorted for binary search, with the degree of every node
//! that appears in some edge. A node is *current* when it has an edge.
//!
//! The metric values are carried as the bit patterns of their `f64`s.
use vstd::prelude::*;

use crate::signal::NodeId;

verus! {

/// An edge entry: canonical endpoints and the bit pattern of its value.
pub type FisherEdge = ((NodeId, NodeId), u64);

/// Raw identifiers of the pair `(i, j)` in canonical order.
pub open spec fn canon_raw(i: NodeId, j: NodeId) -> (u64, u64) {
    if i.raw() <= j.raw() {
        (i.raw(), j.raw())
    } else {
        (j.raw(), i.raw())
    }
}

/// Raw identifiers of an entry's endpoints.
pub open spec fn raw_pair(e: FisherEdge) -> (u64, u64) {
    (e.0.0.raw(), e.0.1.raw())
}

/// Lexicographic order on raw pairs.
pub open spec fn pair_lt(a: (u64, u64), b: (u64, u64)) -> bool {
    a.0 < b.0 || (a.0 == b.0 && a.1 < b.1)
}

/// Endpoints of the entries equal to `n` (a loop counts twice).
pub open spec fn incident(es: Seq<FisherEdge>, n: u64) -> int
    decreases es.len(),
{
    if es.len() == 0 {
        0
    } else {
        incident(es.drop_last(), n) + (if es.last().0.0.raw() == n {
            1int
        } else {
            0int
        }) + (if es.last().0.1.raw() == n {
            1int
        } else {
            0int
        })
    }
}

/// Endpoints of one entry equal to `n`.
pub open spec fn ends(e: FisherEdge, n: u64) -> int {
    (if e.0.0.raw() == n {
        1int
    } else {
        0int
    }) + (if e.0.1.raw() == n {
        1int
    } else {
        0int
    })
}

/// The weight of each canonical pair present in `es`.
pub open spec fn weight_map(es: Seq<FisherEdge>) -> Map<(u64, u64), u64> {
    Map::new(
        |k: (u64, u64)| exists|t: int| 0 <= t < es.len() && raw_pair(#[trigger] es[t]) == k,
        |k: (u64, u64)| es[choose|t: int| 0 <= t < es.len() && raw_pair(#[trigger] es[t]) == k].1,
    )
}

/// The weights given by a list of entries in any orientation, the first
/// entry of a pair winning over later ones.
pub open spec fn input_weights(s: Seq<FisherEdge>) -> Map<(u64, u64), u64>
    decreases s.len(),
{
    if s.len() == 0 {
        Map::empty()
    } else {
        input_weights(s.drop_first()).insert(canon_raw(s[0].0.0, s[0].0.1), s[0].1)
    }
}

/// Degree recorded for `n` (zero when absent).
pub open spec fn deg_of(nd: Seq<(NodeId, u32)>, n: u64) -> int {
    if exists|a: int| 0 <= a < nd.len() && (#[trigger] nd[a]).0.raw() == n {
        nd[choose|a: int| 0 <= a < nd.len() && (#[trigger] nd[a]).0.raw() == n].1 as int
    } else {
        0
    }
}

/// Degree records sorted by identifier, all positive.
pub open spec fn degrees_wf(nd: Seq<(NodeId, u32)>) -> bool {
    &&& forall|a: int, b: int| 0 <= a < b < nd.len() ==> (#[trigger] nd[a]).0.raw() < (#[trigger] nd[b]).0.raw()
    &&& forall|a: int| 0 <= a < nd.len() ==> (#[trigger] nd[a]).1 >= 1
}

proof fn lemma_deg_at(nd: Seq<(NodeId, u32)>, a: int)
    requires
        degrees_wf(nd),
        0 <= a < nd.len(),
    ensures
        deg_of(nd, nd[a].0.raw()) == nd[a].1,
{
    let n = nd[a].0.raw();
    let c = choose|c: int| 0 <= c < nd.len() && (#[trigger] nd[c]).0.raw() == n;
    if c < a {
        assert(nd[c].0.raw() < nd[a].0.raw());
    } else if c > a {
        assert(nd[a].0.raw() < nd[c].0.raw());
    }
}

proof fn lemma_incident_append(a: Seq<FisherEdge>, b: Seq<FisherEdge>, n: u64)
    ensures
        incident(a + b, n) == incident(a, n) + incident(b, n),
    decreases b.len(),
{
    if b.len() > 0 {
        lemma_incident_append(a, b.drop_last(), n);
        assert((a + b).drop_last() =~= a + b.drop_last());
    } else {
        assert(a + b =~= a);
    }
}

proof fn lemma_incident_insert(es: Seq<FisherEdge>, pos: int, x: FisherEdge, n: u64)
    requires
        0 <= pos <= es.len(),
    ensures
        incident(es.insert(pos, x), n) == incident(es, n) + ends(x, n),
{
    let l = es.take(pos);
    let r = es.skip(pos);
    assert(es =~= l + r);
    assert(es.insert(pos, x) =~= l + (seq![x] + r));
    lemma_incident_append(l, r, n);
    lemma_incident_append(l, seq![x] + r, n);
    lemma_incident_append(seq![x], r, n);
    assert(seq![x].drop_last() =~= Seq::<FisherEdge>::empty());
    assert(incident(Seq::<FisherEdge>::empty(), n) == 0);
    assert(seq![x].last() == x);
    assert(incident(seq![x], n) == ends(x, n));
}

proof fn lemma_incident_remove(es: Seq<FisherEdge>, pos: int, n: u64)
    requires
        0 <= pos < es.len(),
    ensures
        incident(es.remove(pos), n) == incident(es, n) - ends(es[pos], n),
{
    let rest = es.remove(pos);
    assert(rest.insert(pos, es[pos]) =~= es);
    lemma_incident_insert(rest, pos, es[pos], n);
}

proof fn lemma_incident_nonneg(es: Seq<FisherEdge>, n: u64)
    ensures
        0 <= incident(es, n) <= 2 * es.len(),
    decreases es.len(),
{
    if es.len() > 0 {
        lemma_incident_nonneg(es.drop_last(), n);
    }
}

/// Fisher metric over the edges of a graph, with node degrees.
#[derive(Clone, Debug)]
pub struct FisherEdgeMetric {
    edges: Vec<FisherEdge>,
    node_degrees: Vec<(NodeId, u32)>,
}

impl FisherEdgeMetric {
    /// The entries, sorted by canonical pair.
    pub closed spec fn edge_list(&self) -> Seq<FisherEdge> {
        self.edges@
    }

    /// The weight of each present canonical pair.
    pub open spec fn weights(&self) -> Map<(u64, u64), u64> {
        weight_map(self.edge_list())
    }

    /// Canonical entries strictly sorted by pair; every node with an edge has
    /// a degree record equal to its number of edge endpoints, and no other
    /// node has one; degrees fit in `u32`.
    pub closed spec fn wf(&self) -> bool {
        let es = self.edges@;
        let nd = self.node_degrees@;
        &&& forall|t: int| 0 <= t < es.len() ==> (#[trigger] es[t]).0.0.raw() <= es[t].0.1.raw()
        &&& forall|a: int, b: int| 0 <= a < b < es.len() ==> pair_lt(raw_pair(#[trigger] es[a]), raw_pair(#[trigger] es[b]))
        &&& 2 * es.len() <= u32::MAX
        &&& degrees_wf(nd)
        &&& forall|n: u64| #[trigger] deg_of(nd, n) == incident(es, n)
    }
}

/// Position of the degree record of `n`: found, or where it would go.
fn find_node(nd: &Vec<(NodeId, u32)>, n: u64) -> (r: (bool, usize))
    requires
        degrees_wf(nd@),
    ensures
        r.1 <= nd@.len(),
        forall|a: int| 0 <= a < r.1 ==> (#[trigger] nd@[a]).0.raw() < n,
        forall|a: int| r.1 < a < nd@.len() ==> (#[trigger] nd@[a]).0.raw() > n,
        r.0 == (r.1 < nd@.len() && nd@[r.1 as int].0.raw() == n),
        !r.0 ==> forall|a: int| r.1 <= a < nd@.len() ==> (#[trigger] nd@[a]).0.raw() > n,
{
    let mut lo: usize = 0;
    let mut hi: usize = nd.len();
    while lo < hi
        invariant
            degrees_wf(nd@),
            lo <= hi <= nd@.len(),
            forall|a: int| 0 <= a < lo ==> (#[trigger] nd@[a]).0.raw() < n,
            forall|a: int| hi <= a < nd@.len() ==> (#[trigger] nd@[a]).0.raw() >= n,
        decreases hi - lo,
    {
        let mid = lo + (hi - lo) / 2;
        if nd[mid].0.get() < n {
            lo = mid + 1;
        } else {
            hi = mid;
        }
    }
    let found = lo < nd.len() && nd[lo].0.get() == n;
    proof {
        assert forall|a: int| lo < a < nd@.len() implies (#[trigger] nd@[a]).0.raw() > n by {
            assert(nd@[lo as int].0.raw() < nd@[a].0.raw());
        }
    }
    (found, lo)
}

/// Adds one to the degree of `n`, creating its record at one.
fn bump_degree(nd: &mut Vec<(NodeId, u32)>, n: NodeId)
    requires
        degrees_wf(old(nd)@),
        deg_of(old(nd)@, n.raw()) < u32::MAX,
    ensures
        degrees_wf(final(nd)@),
        forall|m: u64| #[trigger] deg_of(final(nd)@, m) == deg_of(old(nd)@, m) + if m == n.raw() {
            1int
        } else {
            0int
        },
{
    let ghost s0 = nd@;
    let (found, pos) = find_node(nd, n.get());
    if found {
        let d = nd[pos].1;
        proof {
            lemma_deg_at(s0, pos as int);
        }
        nd.set(pos, (n, d + 1));
        proof {
            let s1 = nd@;
            assert(s1 =~= s0.update(pos as int, (n, (d + 1) as u32)));
            assert forall|m: u64| #[trigger] deg_of(s1, m) == deg_of(s0, m) + if m == n.raw() {
                1int
            } else {
                0int
            } by {
                if exists|a: int| 0 <= a < s0.len() && (#[trigger] s0[a]).0.raw() == m {
                    let a = choose|a: int| 0 <= a < s0.len() && (#[trigger] s0[a]).0.raw() == m;
                    lemma_deg_at(s0, a);
                    lemma_deg_at(s1, a);
                } else {
                    assert(!exists|a: int| 0 <= a < s1.len() && (#[trigger] s1[a]).0.raw() == m) by {
                        if exists|a: int| 0 <= a < s1.len() && (#[trigger] s1[a]).0.raw() == m {
                            let a = choose|a: int| 0 <= a < s1.len() && (#[trigger] s1[a]).0.raw() == m;
                            assert(s0[a].0.raw() == s1[a].0.raw());
                        }
                    }
                }
            }
        }
    } else {
        nd.insert(pos, (n, 1u32));
        proof {
            let s1 = nd@;
            assert(s1 =~= s0.insert(pos as int, (n, 1u32)));
            assert(degrees_wf(s1)) by {
                assert forall|a: int, b: int| 0 <= a < b < s1.len() implies (#[trigger] s1[a]).0.raw() < (
                #[trigger] s1[b]).0.raw() by {
                    if b < pos {
                        assert(s1[a] == s0[a] && s1[b] == s0[b]);
                    } else if b == pos {
                        assert(s1[a] == s0[a]);
                    } else if a == pos {
                        assert(s1[b] == s0[b - 1]);
                    } else if a < pos {
                        assert(s1[a] == s0[a] && s1[b] == s0[b - 1]);
                    } else {
                        assert(s1[a] == s0[a - 1] && s1[b] == s0[b - 1]);
                    }
                }
                assert forall|a: int| 0 <= a < s1.len() implies (#[trigger] s1[a]).1 >= 1 by {
                    if a < pos {
                        assert(s1[a] == s0[a]);
                    } else if a > pos {
                        assert(s1[a] == s0[a - 1]);
                    }
                }
            }
            assert forall|m: u64| #[trigger] deg_of(s1, m) == deg_of(s0, m) + if m == n.raw() {
                1int
            } else {
                0int
            } by {
                if m == n.raw() {
                    lemma_deg_at(s1, pos as int);
                    assert(!exists|a: int| 0 <= a < s0.len() && (#[trigger] s0[a]).0.raw() == m);
                } else if exists|a: int| 0 <= a < s0.len() && (#[trigger] s0[a]).0.raw() == m {
                    let a = choose|a: int| 0 <= a < s0.len() && (#[trigger] s0[a]).0.raw() == m;
                    lemma_deg_at(s0, a);
                    if a < pos {
                        assert(s1[a] == s0[a]);
                        lemma_deg_at(s1, a);
                    } else {
                        assert(s1[a + 1] == s0[a]);
                        lemma_deg_at(s1, a + 1);
                    }
                } else {
                    assert(!exists|a: int| 0 <= a < s1.len() && (#[trigger] s1[a]).0.raw() == m) by {
                        if exists|a: int| 0 <= a < s1.len() && (#[trigger] s1[a]).0.raw() == m {
                            let a = choose|a: int| 0 <= a < s1.len() && (#[trigger] s1[a]).0.raw() == m;
                            if a < pos {
                                assert(s1[a] == s0[a]);
                            } else if a > pos {
                                assert(s1[a] == s0[a - 1]);
                            }
                        }
                    }
                }
            }
        }
    }
}

/// Takes one from the degree of `n`, dropping its record at zero; a node
/// without a record is left alone.
fn drop_degree(nd: &mut Vec<(NodeId, u32)>, n: NodeId)
    requires
        degrees_wf(old(nd)@),
    ensures
        degrees_wf(final(nd)@),
        forall|m: u64| #[trigger] deg_of(final(nd)@, m) == deg_of(old(nd)@, m) - if m == n.raw() && deg_of(
            old(nd)@,
            m,
        ) > 0 {
            1int
        } else {
            0int
        },
{
    let ghost s0 = nd@;
    let (found, pos) = find_node(nd, n.get());
    if !found {
        proof {
            assert(!exists|a: int| 0 <= a < s0.len() && (#[trigger] s0[a]).0.raw() == n.raw()) by {
                if exists|a: int| 0 <= a < s0.len() && (#[trigger] s0[a]).0.raw() == n.raw() {
                    let a = choose|a: int| 0 <= a < s0.len() && (#[trigger] s0[a]).0.raw() == n.raw();
                }
            }
        }
        return;
    }
    let d = nd[pos].1;
    proof {
        lemma_deg_at(s0, pos as int);
    }
    if d <= 1 {
        nd.remove(pos);
        proof {
            let s1 = nd@;
            assert(s1 =~= s0.remove(pos as int));
            assert(degrees_wf(s1)) by {
                assert forall|a: int, b: int| 0 <= a < b < s1.len() implies (#[trigger] s1[a]).0.raw() < (
                #[trigger] s1[b]).0.raw() by {
                    if b < pos {
                        assert(s1[a] == s0[a] && s1[b] == s0[b]);
                    } else if a < pos {
                        assert(s1[a] == s0[a] && s1[b] == s0[b + 1]);
                    } else {
                        assert(s1[a] == s0[a + 1] && s1[b] == s0[b + 1]);
                    }
                }
                assert forall|a: int| 0 <= a < s1.len() implies (#[trigger] s1[a]).1 >= 1 by {
                    if a < pos {
                        assert(s1[a] == s0[a]);
                    } else {
                        assert(s1[a] == s0[a + 1]);
                    }
                }
            }
            assert forall|m: u64| #[trigger] deg_of(s1, m) == deg_of(s0, m) - if m == n.raw() && deg_of(s0, m)
                > 0 {
                1int
            } else {
                0int
            } by {
                if m == n.raw() {
                    assert(!exists|a: int| 0 <= a < s1.len() && (#[trigger] s1[a]).0.raw() == m) by {
                        if exists|a: int| 0 <= a < s1.len() && (#[trigger] s1[a]).0.raw() == m {
                            let a = choose|a: int| 0 <= a < s1.len() && (#[trigger] s1[a]).0.raw() == m;
                            if a < pos {
                                assert(s1[a] == s0[a]);
                            } else {
                                assert(s1[a] == s0[a + 1]);
                            }
                        }
                    }
                } else if exists|a: int| 0 <= a < s0.len() && (#[trigger] s0[a]).0.raw() == m {
                    let a = choose|a: int| 0 <= a < s0.len() && (#[trigger] s0[a]).0.raw() == m;
                    lemma_deg_at(s0, a);
                    if a < pos {
                        assert(s1[a] == s0[a]);
                        lemma_deg_at(s1, a);
                    } else {
                        assert(a != pos);
                        assert(s1[a - 1] == s0[a]);
                        lemma_deg_at(s1, a - 1);
                    }
                } else {
                    assert(!exists|a: int| 0 <= a < s1.len() && (#[trigger] s1[a]).0.raw() == m) by {
                        if exists|a: int| 0 <= a < s1.len() && (#[trigger] s1[a]).0.raw() == m {
                            let a = choose|a: int| 0 <= a < s1.len() && (#[trigger] s1[a]).0.raw() == m;
                            if a < pos {
                                assert(s1[a] == s0[a]);
                            } else {
                                assert(s1[a] == s0[a + 1]);
                            }
                        }
                    }
                }
            }
        }
    } else {
        nd.set(pos, (n, d - 1));
        proof {
            let s1 = nd@;
            assert(s1 =~= s0.update(pos as int, (n, (d - 1) as u32)));
            assert forall|m: u64| #[trigger] deg_of(s1, m) == deg_of(s0, m) - if m == n.raw() && deg_of(s0, m)
                > 0 {
                1int
            } else {
                0int
            } by {
                if exists|a: int| 0 <= a < s0.len() && (#[trigger] s0[a]).0.raw() == m {
                    let a = choose|a: int| 0 <= a < s0.len() && (#[trigger] s0[a]).0.raw() == m;
                    lemma_deg_at(s0, a);
                    lemma_deg_at(s1, a);
                } else {
                    assert(!exists|a: int| 0 <= a < s1.len() && (#[trigger] s1[a]).0.raw() == m) by {
                        if exists|a: int| 0 <= a < s1.len() && (#[trigger] s1[a]).0.raw() == m {
                            let a = choose|a: int| 0 <= a < s1.len() && (#[trigger] s1[a]).0.raw() == m;
                            assert(s0[a].0.raw() == s1[a].0.raw());
                        }
                    }
                }
            }
        }
    }
}

/// Entries strictly sorted by canonical pair.
pub open spec fn edges_sorted(es: Seq<FisherEdge>) -> bool {
    forall|a: int, b: int| 0 <= a < b < es.len() ==> pair_lt(raw_pair(#[trigger] es[a]), raw_pair(#[trigger] es[b]))
}

proof fn lemma_weight_at(es: Seq<FisherEdge>, t: int)
    requires
        edges_sorted(es),
        0 <= t < es.len(),
    ensures
        weight_map(es).contains_key(raw_pair(es[t])),
        weight_map(es)[raw_pair(es[t])] == es[t].1,
{
    let k = raw_pair(es[t]);
    let c = choose|c: int| 0 <= c < es.len() && raw_pair(#[trigger] es[c]) == k;
    if c < t {
        assert(pair_lt(raw_pair(es[c]), raw_pair(es[t])));
    } else if c > t {
        assert(pair_lt(raw_pair(es[t]), raw_pair(es[c])));
    }
}

/// Position of the entry with pair `key`: found, or where it would go.
fn find_edge(es: &Vec<FisherEdge>, key: (u64, u64)) -> (r: (bool, usize))
    requires
        edges_sorted(es@),
    ensures
        r.1 <= es@.len(),
        forall|a: int| 0 <= a < r.1 ==> pair_lt(raw_pair(#[trigger] es@[a]), key),
        forall|a: int| r.1 < a < es@.len() ==> pair_lt(key, raw_pair(#[trigger] es@[a])),
        r.0 == (r.1 < es@.len() && raw_pair(es@[r.1 as int]) == key),
        !r.0 ==> forall|a: int| r.1 <= a < es@.len() ==> pair_lt(key, raw_pair(#[trigger] es@[a])),
{
    let mut lo: usize = 0;
    let mut hi: usize = es.len();
    while lo < hi
        invariant
            edges_sorted(es@),
            lo <= hi <= es@.len(),
            forall|a: int| 0 <= a < lo ==> pair_lt(raw_pair(#[trigger] es@[a]), key),
            forall|a: int| hi <= a < es@.len() ==> !pair_lt(raw_pair(#[trigger] es@[a]), key),
        decreases hi - lo,
    {
        let mid = lo + (hi - lo) / 2;
        let (u, v) = (es[mid].0.0.get(), es[mid].0.1.get());
        if u < key.0 || (u == key.0 && v < key.1) {
            lo = mid + 1;
        } else {
            hi = mid;
        }
    }
    let found = lo < es.len() && es[lo].0.0.get() == key.0 && es[lo].0.1.get() == key.1;
    proof {
        assert forall|a: int| lo < a < es@.len() implies pair_lt(key, raw_pair(#[trigger] es@[a])) by {
            assert(pair_lt(raw_pair(es@[lo as int]), raw_pair(es@[a])));
        }
        if !found && lo < es@.len() {
            assert(pair_lt(key, raw_pair(es@[lo as int])));
        }
    }
    (found, lo)
}

/// The canonical orientation of `(i, j)`.
fn canonical_edge(i: NodeId, j: NodeId) -> (r: (NodeId, NodeId))
    ensures
        (r.0.raw(), r.1.raw()) == canon_raw(i, j),
        r.0.raw() <= r.1.raw(),
{
    if i.get() <= j.get() {
        (i, j)
    } else {
        (j, i)
    }
}

impl FisherEdgeMetric {
    /// An empty metric.
    pub fn empty() -> (m: Self)
        ensures
            m.wf(),
            m.edge_list().len() == 0,
            m.weights() == Map::<(u64, u64), u64>::empty(),
    {
        let m = FisherEdgeMetric { edges: Vec::new(), node_degrees: Vec::new() };
        proof {
            assert(m.weights() =~= Map::<(u64, u64), u64>::empty());
        }
        m
    }

    /// The value of edge `(i, j)` in either orientation, or `0` (the bits
    /// of `0.0`) when there is no such edge.
    pub fn get(&self, i: NodeId, j: NodeId) -> (r: u64)
        requires
            self.wf(),
        ensures
            r == if self.weights().contains_key(canon_raw(i, j)) {
                self.weights()[canon_raw(i, j)]
            } else {
                0u64
            },
    {
        let key = canonical_edge(i, j);
        let (found, pos) = find_edge(&self.edges, (key.0.get(), key.1.get()));
        proof {
            let es = self.edges@;
            let k = canon_raw(i, j);
            if found {
                lemma_weight_at(es, pos as int);
            } else {
                assert(!weight_map(es).contains_key(k)) by {
                    if exists|t: int| 0 <= t < es.len() && raw_pair(#[trigger] es[t]) == k {
                        let t = choose|t: int| 0 <= t < es.len() && raw_pair(#[trigger] es[t]) == k;
                        if t < pos {
                            assert(pair_lt(raw_pair(es[t]), k));
                        } else {
                            assert(pair_lt(k, raw_pair(es[t])));
                        }
                    }
                }
            }
        }
        if found {
            self.edges[pos].1
        } else {
            0
        }
    }

    /// Sets the value of edge `(i, j)`: in place when present, otherwise
    /// inserted at its sorted position, raising both endpoint degrees.
    pub fn set(&mut self, i: NodeId, j: NodeId, value: u64)
        requires
            old(self).wf(),
            old(self).weights().contains_key(canon_raw(i, j)) || 2 * (old(self).edge_list().len() + 1) <= u32::MAX,
        ensures
            final(self).wf(),
            final(self).weights() == old(self).weights().insert(canon_raw(i, j), value),
            final(self).edge_list().len() <= old(self).edge_list().len() + 1,
    {
        let key = canonical_edge(i, j);
        let k = (key.0.get(), key.1.get());
        let ghost es0 = self.edges@;
        let ghost nd0 = self.node_degrees@;
        let (found, pos) = find_edge(&self.edges, k);
        if found {
            let stored = self.edges[pos].0;
            self.edges.set(pos, (stored, value));
            proof {
                let es1 = self.edges@;
                assert(es1 =~= es0.update(pos as int, (stored, value)));
                assert forall|n: u64| #[trigger] incident(es1, n) == incident(es0, n) by {
                    lemma_incident_remove(es0, pos as int, n);
                    assert(es0.remove(pos as int).insert(pos as int, (stored, value)) =~= es1);
                    lemma_incident_insert(es0.remove(pos as int), pos as int, (stored, value), n);
                }
                assert forall|a: int, b: int| 0 <= a < b < es1.len() implies pair_lt(
                    raw_pair(#[trigger] es1[a]),
                    raw_pair(#[trigger] es1[b]),
                ) by {
                    assert(raw_pair(es1[a]) == raw_pair(es0[a]) && raw_pair(es1[b]) == raw_pair(es0[b]));
                }
                assert(weight_map(es1) =~= weight_map(es0).insert(k, value)) by {
                    lemma_weight_at(es1, pos as int);
                    assert forall|q: (u64, u64)| #[trigger] weight_map(es1).contains_key(q) == weight_map(
                        es0,
                    ).insert(k, value).contains_key(q) by {
                        if exists|t: int| 0 <= t < es0.len() && raw_pair(#[trigger] es0[t]) == q {
                            let t = choose|t: int| 0 <= t < es0.len() && raw_pair(#[trigger] es0[t]) == q;
                            assert(raw_pair(es1[t]) == q);
                        }
                        if exists|t: int| 0 <= t < es1.len() && raw_pair(#[trigger] es1[t]) == q {
                            let t = choose|t: int| 0 <= t < es1.len() && raw_pair(#[trigger] es1[t]) == q;
                            assert(raw_pair(es0[t]) == q);
                        }
                    }
                    assert forall|q: (u64, u64)| weight_map(es1).contains_key(q) implies #[trigger] weight_map(
                        es1,
                    )[q] == weight_map(es0).insert(k, value)[q] by {
                        let t = choose|t: int| 0 <= t < es1.len() && raw_pair(#[trigger] es1[t]) == q;
                        lemma_weight_at(es1, t);
                        if t != pos {
                            lemma_weight_at(es0, t);
                        }
                    }
                }
            }
        } else {
            proof {
                lemma_incident_nonneg(es0, key.0.raw());
                lemma_incident_nonneg(es0, key.1.raw());
                assert(!weight_map(es0).contains_key(k)) by {
                    if exists|t: int| 0 <= t < es0.len() && raw_pair(#[trigger] es0[t]) == k {
                        let t = choose|t: int| 0 <= t < es0.len() && raw_pair(#[trigger] es0[t]) == k;
                        if t < pos {
                            assert(pair_lt(raw_pair(es0[t]), k));
                        } else {
                            assert(pair_lt(k, raw_pair(es0[t])));
                        }
                    }
                }
            }
            let entry = (key, value);
            self.edges.insert(pos, entry);
            bump_degree(&mut self.node_degrees, key.0);
            bump_degree(&mut self.node_degrees, key.1);
            proof {
                let es1 = self.edges@;
                assert(es1 =~= es0.insert(pos as int, entry));
                assert forall|n: u64| #[trigger] deg_of(self.node_degrees@, n) == incident(es1, n) by {
                    lemma_incident_insert(es0, pos as int, entry, n);
                }
                assert forall|a: int, b: int| 0 <= a < b < es1.len() implies pair_lt(
                    raw_pair(#[trigger] es1[a]),
                    raw_pair(#[trigger] es1[b]),
                ) by {
                    if b < pos {
                        assert(es1[a] == es0[a] && es1[b] == es0[b]);
                    } else if b == pos {
                        assert(es1[a] == es0[a]);
                    } else if a == pos {
                        assert(es1[b] == es0[b - 1]);
                    } else if a < pos {
                        assert(es1[a] == es0[a] && es1[b] == es0[b - 1]);
                    } else {
                        assert(es1[a] == es0[a - 1] && es1[b] == es0[b - 1]);
                    }
                }
                assert forall|t: int| 0 <= t < es1.len() implies (#[trigger] es1[t]).0.0.raw() <= es1[t].0.1.raw() by {
                    if t < pos {
                        assert(es1[t] == es0[t]);
                    } else if t > pos {
                        assert(es1[t] == es0[t - 1]);
                    }
                }
                assert(weight_map(es1) =~= weight_map(es0).insert(k, value)) by {
                    lemma_weight_at(es1, pos as int);
                    assert forall|q: (u64, u64)| #[trigger] weight_map(es1).contains_key(q) == weight_map(
                        es0,
                    ).insert(k, value).contains_key(q) by {
                        if exists|t: int| 0 <= t < es0.len() && raw_pair(#[trigger] es0[t]) == q {
                            let t = choose|t: int| 0 <= t < es0.len() && raw_pair(#[trigger] es0[t]) == q;
                            if t < pos {
                                assert(es1[t] == es0[t]);
                            } else {
                                assert(es1[t + 1] == es0[t]);
                            }
                        }
                        if exists|t: int| 0 <= t < es1.len() && raw_pair(#[trigger] es1[t]) == q {
                            let t = choose|t: int| 0 <= t < es1.len() && raw_pair(#[trigger] es1[t]) == q;
                            if t < pos {
                                assert(es1[t] == es0[t]);
                            } else if t > pos {
                                assert(es1[t] == es0[t - 1]);
                            }
                        }
                    }
                    assert forall|q: (u64, u64)| weight_map(es1).contains_key(q) implies #[trigger] weight_map(
                        es1,
                    )[q] == weight_map(es0).insert(k, value)[q] by {
                        let t = choose|t: int| 0 <= t < es1.len() && raw_pair(#[trigger] es1[t]) == q;
                        lemma_weight_at(es1, t);
                        if t < pos {
                            assert(es1[t] == es0[t]);
                            lemma_weight_at(es0, t);
                        } else if t > pos {
                            assert(es1[t] == es0[t - 1]);
                            lemma_weight_at(es0, t - 1);
                        }
                    }
                }
            }
        }
    }
}

impl FisherEdgeMetric {
    /// Removes edge `(i, j)` (either orientation) if present, lowering both
    /// endpoint degrees and dropping the records that reach zero.
    pub fn remove(&mut self, i: NodeId, j: NodeId)
        requires
            old(self).wf(),
        ensures
            final(self).wf(),
            final(self).weights() == old(self).weights().remove(canon_raw(i, j)),
            final(self).edge_list().len() <= old(self).edge_list().len(),
    {
        let key = canonical_edge(i, j);
        let k = (key.0.get(), key.1.get());
        let ghost es0 = self.edges@;
        let (found, pos) = find_edge(&self.edges, k);
        if !found {
            proof {
                assert(weight_map(es0) =~= weight_map(es0).remove(k)) by {
                    assert(!weight_map(es0).contains_key(k)) by {
                        if exists|t: int| 0 <= t < es0.len() && raw_pair(#[trigger] es0[t]) == k {
                            let t = choose|t: int| 0 <= t < es0.len() && raw_pair(#[trigger] es0[t]) == k;
                            if t < pos {
                                assert(pair_lt(raw_pair(es0[t]), k));
                            } else {
                                assert(pair_lt(k, raw_pair(es0[t])));
                            }
                        }
                    }
                }
            }
            return;
        }
        let removed = self.edges.remove(pos);
        proof {
            lemma_incident_nonneg(es0, removed.0.0.raw());
            lemma_incident_nonneg(es0, removed.0.1.raw());
        }
        drop_degree(&mut self.node_degrees, removed.0.0);
        drop_degree(&mut self.node_degrees, removed.0.1);
        proof {
            let es1 = self.edges@;
            assert(es1 =~= es0.remove(pos as int));
            assert(removed == es0[pos as int]);
            assert forall|n: u64| #[trigger] deg_of(self.node_degrees@, n) == incident(es1, n) by {
                lemma_incident_remove(es0, pos as int, n);
                lemma_incident_nonneg(es1, n);
            }
            assert forall|a: int, b: int| 0 <= a < b < es1.len() implies pair_lt(
                raw_pair(#[trigger] es1[a]),
                raw_pair(#[trigger] es1[b]),
            ) by {
                if b < pos {
                    assert(es1[a] == es0[a] && es1[b] == es0[b]);
                } else if a < pos {
                    assert(es1[a] == es0[a] && es1[b] == es0[b + 1]);
                } else {
                    assert(es1[a] == es0[a + 1] && es1[b] == es0[b + 1]);
                }
            }
            assert forall|t: int| 0 <= t < es1.len() implies (#[trigger] es1[t]).0.0.raw() <= es1[t].0.1.raw() by {
                if t < pos {
                    assert(es1[t] == es0[t]);
                } else {
                    assert(es1[t] == es0[t + 1]);
                }
            }
            assert(weight_map(es1) =~= weight_map(es0).remove(k)) by {
                assert forall|q: (u64, u64)| #[trigger] weight_map(es1).contains_key(q) == weight_map(es0).remove(
                    k,
                ).contains_key(q) by {
                    if exists|t: int| 0 <= t < es0.len() && raw_pair(#[trigger] es0[t]) == q {
                        let t = choose|t: int| 0 <= t < es0.len() && raw_pair(#[trigger] es0[t]) == q;
                        if t < pos {
                            assert(es1[t] == es0[t]);
                        } else if t > pos {
                            assert(es1[t - 1] == es0[t]);
                        }
                    }
                    if exists|t: int| 0 <= t < es1.len() && raw_pair(#[trigger] es1[t]) == q {
                        let t = choose|t: int| 0 <= t < es1.len() && raw_pair(#[trigger] es1[t]) == q;
                        if t < pos {
                            assert(es1[t] == es0[t]);
                            assert(pair_lt(raw_pair(es0[t]), raw_pair(es0[pos as int])));
                        } else {
                            assert(es1[t] == es0[t + 1]);
                            assert(pair_lt(raw_pair(es0[pos as int]), raw_pair(es0[t + 1])));
                        }
                    }
                }
                assert forall|q: (u64, u64)| weight_map(es1).contains_key(q) implies #[trigger] weight_map(es1)[q]
                    == weight_map(es0).remove(k)[q] by {
                    let t = choose|t: int| 0 <= t < es1.len() && raw_pair(#[trigger] es1[t]) == q;
                    lemma_weight_at(es1, t);
                    if t < pos {
                        assert(es1[t] == es0[t]);
                        lemma_weight_at(es0, t);
                    } else {
                        assert(es1[t] == es0[t + 1]);
                        lemma_weight_at(es0, t + 1);
                    }
                }
            }
        }
    }

    /// All entries as `(i, j, value)`, in canonical sorted order.
    pub fn edges(&self) -> (r: Vec<(NodeId, NodeId, u64)>)
        ensures
            r@.len() == self.edge_list().len(),
            forall|t: int| 0 <= t < r@.len() ==> #[trigger] r@[t] == (
                self.edge_list()[t].0.0,
                self.edge_list()[t].0.1,
                self.edge_list()[t].1,
            ),
    {
        let mut out: Vec<(NodeId, NodeId, u64)> = Vec::new();
        let mut t: usize = 0;
        while t < self.edges.len()
            invariant
                t <= self.edges@.len(),
                out@.len() == t,
                forall|q: int| 0 <= q < t ==> #[trigger] out@[q] == (
                    self.edges@[q].0.0,
                    self.edges@[q].0.1,
                    self.edges@[q].1,
                ),
            decreases self.edges@.len() - t,
        {
            let e = self.edges[t];
            out.push((e.0.0, e.0.1, e.1));
            t += 1;
        }
        out
    }

    /// Whether `n` is an endpoint of some edge (its Fisher value is current).
    pub fn is_current(&self, n: NodeId) -> (r: bool)
        requires
            self.wf(),
        ensures
            r == (incident(self.edge_list(), n.raw()) > 0),
    {
        let (found, pos) = find_node(&self.node_degrees, n.get());
        proof {
            let nd = self.node_degrees@;
            if found {
                lemma_deg_at(nd, pos as int);
            } else {
                assert(!exists|a: int| 0 <= a < nd.len() && (#[trigger] nd[a]).0.raw() == n.raw()) by {
                    if exists|a: int| 0 <= a < nd.len() && (#[trigger] nd[a]).0.raw() == n.raw() {
                        let a = choose|a: int| 0 <= a < nd.len() && (#[trigger] nd[a]).0.raw() == n.raw();
                    }
                }
            }
            assert(deg_of(nd, n.raw()) == incident(self.edges@, n.raw()));
        }
        found
    }

    /// Builds the metric from entries in either orientation: pairs are made
    /// canonical, sorted, and a pair given twice keeps its first value.
    pub fn new(edges: Vec<FisherEdge>) -> (m: Self)
        requires
            2 * edges@.len() <= u32::MAX,
        ensures
            m.wf(),
            m.weights() == input_weights(edges@),
    {
        let mut m = FisherEdgeMetric::empty();
        let n = edges.len();
        let mut t: usize = n;
        proof {
            assert(edges@.skip(n as int) =~= Seq::<FisherEdge>::empty());
        }
        while t > 0
            invariant
                t <= n == edges@.len(),
                2 * n <= u32::MAX,
                m.wf(),
                m.weights() == input_weights(edges@.skip(t as int)),
                m.edge_list().len() <= n - t,
            decreases t,
        {
            let e = edges[t - 1];
            proof {
                assert(edges@.skip(t - 1).drop_first() =~= edges@.skip(t as int));
                assert(edges@.skip(t - 1)[0] == e);
            }
            m.set(e.0.0, e.0.1, e.1);
            t -= 1;
        }
        proof {
            assert(edges@.skip(0) =~= edges@);
        }
        m
    }
}

impl Default for FisherEdgeMetric {
    fn default() -> (m: Self)
        ensures
            m.wf(),
            m.edge_list().len() == 0,
    {
        FisherEdgeMetric::empty()
    }
}

/// A pair names the same edge in either orientation, and reading an edge
/// after writing it gives the written value, whichever orientation is read.
pub proof fn lemma_read_after_write(before: FisherEdgeMetric, after: FisherEdgeMetric, i: NodeId, j: NodeId, value: u64)
    requires
        after.weights() == before.weights().insert(canon_raw(i, j), value),
    ensures
        canon_raw(i, j) == canon_raw(j, i),
        after.weights().contains_key(canon_raw(j, i)),
        after.weights()[canon_raw(j, i)] == value,
        forall|k: (u64, u64)|
            k != canon_raw(i, j) ==> (#[trigger] after.weights().contains_key(k)) == before.weights().contains_key(k),
{
}

} // verus!
