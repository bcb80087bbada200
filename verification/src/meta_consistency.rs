//! Historical meta-consistency of proofs: the causal links between proofs
//! (parent and premises, resolved by digest) must form a DAG, and a candidate
//! must not conflict with an accepted proof under a pluggable rule.
use vstd::prelude::*;
use vstd::set_lib::{lemma_int_range, set_int_range};

use crate::error::GenesisError;
use crate::signal::NodeId;
use crate::proof_carrying::{hash_eq, spec_verify, AxiomGuard, AxiomID, Proof, ProofHash, ProofMeta};

verus! {

// ============================================================================
// Directed graphs given by adjacency lists
// ============================================================================

/// An edge `i → j` of the graph whose adjacency lists are `adj`.
pub open spec fn adj_edge(adj: Seq<Vec<usize>>, i: int, j: int) -> bool {
    0 <= i < adj.len() && 0 <= j < adj.len() && adj[i]@.contains(j as usize)
}

/// `w` is a walk of the edge relation: consecutive entries are linked.
pub open spec fn is_walk(edge: spec_fn(int, int) -> bool, w: Seq<int>) -> bool
    decreases w.len(),
{
    if w.len() <= 1 {
        w.len() == 1
    } else {
        is_walk(edge, w.drop_last()) && edge(w[w.len() - 2], w.last())
    }
}

/// `v` is reachable from `s` in one or more steps.
pub open spec fn reaches(edge: spec_fn(int, int) -> bool, s: int, v: int) -> bool {
    exists|w: Seq<int>| #[trigger] is_walk(edge, w) && w.len() >= 2 && w[0] == s && w.last() == v
}

/// Some node among `0..n` lies on a cycle.
pub open spec fn cyclic(edge: spec_fn(int, int) -> bool, n: int) -> bool {
    exists|s: int| 0 <= s < n && #[trigger] reaches(edge, s, s)
}

/// Every adjacency entry names a node.
pub open spec fn adj_in_range(adj: Seq<Vec<usize>>) -> bool {
    forall|i: int, k: int| 0 <= i < adj.len() && 0 <= k < adj[i]@.len() ==> (#[trigger] adj[i]@[k]) < adj.len()
}

/// Extending a walk by one edge gives a walk.
proof fn lemma_walk_push(edge: spec_fn(int, int) -> bool, w: Seq<int>, j: int)
    requires
        is_walk(edge, w),
        edge(w.last(), j),
    ensures
        is_walk(edge, w.push(j)),
        w.push(j).len() >= 2,
        w.push(j)[0] == w[0],
        w.push(j).last() == j,
{
    assert(w.push(j).drop_last() =~= w);
}

/// A walk starting at `s` ends in any set that holds every successor of `s`
/// and is closed under the edge relation.
proof fn lemma_walk_stays_closed(edge: spec_fn(int, int) -> bool, w: Seq<int>, s: int, closed: Set<int>)
    requires
        is_walk(edge, w),
        w.len() >= 2,
        w[0] == s,
        forall|j: int| edge(s, j) ==> closed.contains(j),
        forall|v: int, j: int| closed.contains(v) && #[trigger] edge(v, j) ==> closed.contains(j),
    ensures
        closed.contains(w.last()),
    decreases w.len(),
{
    let p = w.drop_last();
    if p.len() >= 2 {
        lemma_walk_stays_closed(edge, p, s, closed);
        assert(edge(p.last(), w.last()));
    } else {
        assert(edge(w[0], w.last()));
    }
}

/// The set of marked positions.
pub open spec fn marked(visited: Seq<bool>) -> Set<int> {
    Set::new(|v: int| 0 <= v < visited.len() && visited[v])
}

/// Marks the unmarked entries of `row` and pushes them on the stack.
fn visit_row(row: &Vec<usize>, visited: &mut Vec<bool>, stack: &mut Vec<usize>)
    requires
        forall|k: int| 0 <= k < row@.len() ==> (#[trigger] row@[k]) < old(visited)@.len(),
        marked(old(visited)@).finite(),
    ensures
        final(visited)@.len() == old(visited)@.len(),
        marked(final(visited)@).finite(),
        forall|k: int| 0 <= k < row@.len() ==> final(visited)@[#[trigger] row@[k] as int],
        forall|v: int| 0 <= v < old(visited)@.len() && old(visited)@[v] ==> final(visited)@[v],
        forall|v: int|
            0 <= v < final(visited)@.len() && final(visited)@[v] && !old(visited)@[v] ==> row@.contains(v as usize),
        final(stack)@.len() >= old(stack)@.len(),
        forall|k: int| 0 <= k < old(stack)@.len() ==> #[trigger] final(stack)@[k] == old(stack)@[k],
        forall|k: int|
            old(stack)@.len() <= k < final(stack)@.len() ==> (#[trigger] final(stack)@[k]) < final(visited)@.len()
                && final(visited)@[final(stack)@[k] as int],
        forall|v: int|
            0 <= v < final(visited)@.len() && final(visited)@[v] && !old(visited)@[v] ==> final(stack)@.contains(
                v as usize,
            ),
        final(stack)@.len() - old(stack)@.len() == marked(final(visited)@).len() - marked(old(visited)@).len(),
{
    let ghost v0 = visited@;
    let ghost s0 = stack@;
    let mut k: usize = 0;
    while k < row.len()
        invariant
            k <= row@.len(),
            forall|t: int| 0 <= t < row@.len() ==> (#[trigger] row@[t]) < v0.len(),
            visited@.len() == v0.len(),
            marked(v0).finite(),
            marked(visited@).finite(),
            forall|t: int| 0 <= t < k ==> visited@[#[trigger] row@[t] as int],
            forall|v: int| 0 <= v < v0.len() && v0[v] ==> visited@[v],
            forall|v: int| 0 <= v < visited@.len() && visited@[v] && !v0[v] ==> row@.contains(v as usize),
            stack@.len() >= s0.len(),
            forall|t: int| 0 <= t < s0.len() ==> #[trigger] stack@[t] == s0[t],
            forall|t: int|
                s0.len() <= t < stack@.len() ==> (#[trigger] stack@[t]) < visited@.len() && visited@[stack@[t] as int],
            forall|v: int| 0 <= v < visited@.len() && visited@[v] && !v0[v] ==> stack@.contains(v as usize),
            stack@.len() - s0.len() == marked(visited@).len() - marked(v0).len(),
        decreases row@.len() - k,
    {
        let j = row[k];
        if !visited[j] {
            let ghost before = visited@;
            let ghost sb = stack@;
            visited.set(j, true);
            stack.push(j);
            proof {
                assert(marked(visited@) =~= marked(before).insert(j as int));
                assert(!marked(before).contains(j as int));
                assert(row@[k as int] == j);
                assert forall|v: int| 0 <= v < visited@.len() && visited@[v] && !v0[v] implies stack@.contains(
                    v as usize,
                ) by {
                    if v != j {
                        assert(before[v]);
                        assert(sb.contains(v as usize));
                        let t = choose|t: int| 0 <= t < sb.len() && sb[t] == v as usize;
                        assert(stack@[t] == v as usize);
                    } else {
                        assert(stack@[stack@.len() - 1] == v as usize);
                    }
                }
            }
        }
        k += 1;
    }
}

/// The edge relation of the adjacency lists.
pub open spec fn adj_rel(adj: Seq<Vec<usize>>) -> spec_fn(int, int) -> bool {
    |i: int, j: int| adj_edge(adj, i, j)
}

proof fn lemma_marked_len(visited: Seq<bool>)
    ensures
        marked(visited).finite(),
        marked(visited).len() <= visited.len(),
{
    lemma_int_range(0, visited.len() as int);
    assert(marked(visited).subset_of(set_int_range(0, visited.len() as int)));
    vstd::set_lib::lemma_len_subset(marked(visited), set_int_range(0, visited.len() as int));
}

/// Whether `s` lies on a cycle: a worklist search of the nodes reachable
/// from the successors of `s`.
fn reaches_back(adj: &Vec<Vec<usize>>, s: usize) -> (r: bool)
    requires
        s < adj@.len(),
        adj_in_range(adj@),
    ensures
        r == reaches(adj_rel(adj@), s as int, s as int),
{
    let ghost edge = adj_rel(adj@);
    let n = adj.len();
    let mut visited: Vec<bool> = Vec::new();
    while visited.len() < n
        invariant
            visited@.len() <= n,
            forall|v: int| 0 <= v < visited@.len() ==> !visited@[v],
        decreases n - visited@.len(),
    {
        visited.push(false);
    }
    proof {
        assert(marked(visited@) =~= Set::<int>::empty());
    }
    let mut stack: Vec<usize> = Vec::new();
    visit_row(&adj[s], &mut visited, &mut stack);
    proof {
        assert forall|v: int| 0 <= v < n && visited@[v] implies reaches(edge, s as int, v) by {
            assert(adj@[s as int]@.contains(v as usize));
            let w = seq![s as int, v];
            assert(w.drop_last() =~= seq![s as int]);
            assert(is_walk(edge, seq![s as int]));
            assert(edge(s as int, v));
            assert(is_walk(edge, w));
        }
        assert forall|j: int| #[trigger] edge(s as int, j) implies visited@[j] by {
            let k = choose|k: int| 0 <= k < adj@[s as int]@.len() && adj@[s as int]@[k] == j as usize;
            assert(visited@[adj@[s as int]@[k] as int]);
        }
    }
    while stack.len() > 0
        invariant
            n == adj@.len(),
            s < n,
            adj_in_range(adj@),
            edge == adj_rel(adj@),
            visited@.len() == n,
            marked(visited@).finite(),
            forall|v: int| 0 <= v < n && visited@[v] ==> reaches(edge, s as int, v),
            forall|k: int| 0 <= k < stack@.len() ==> (#[trigger] stack@[k]) < n && visited@[stack@[k] as int],
            forall|j: int| #[trigger] edge(s as int, j) ==> visited@[j],
            forall|v: int, j: int|
                0 <= v < n && visited@[v] && !stack@.contains(v as usize) && #[trigger] edge(v, j) ==> visited@[j],
        decreases n - marked(visited@).len(), stack@.len(),
    {
        proof {
            lemma_marked_len(visited@);
        }
        let ghost v_before = visited@;
        let ghost st_before = stack@;
        let v = stack.pop().unwrap();
        let ghost st_popped = stack@;
        proof {
            assert(st_before == st_popped.push(v));
            assert(st_before[st_before.len() - 1] == v);
        }
        visit_row(&adj[v], &mut visited, &mut stack);
        proof {
            lemma_marked_len(visited@);
            assert forall|u: int| 0 <= u < n && visited@[u] implies reaches(edge, s as int, u) by {
                if !v_before[u] {
                    assert(adj@[v as int]@.contains(u as usize));
                    assert(edge(v as int, u));
                    assert(reaches(edge, s as int, v as int));
                    let w = choose|w: Seq<int>| #[trigger] is_walk(edge, w) && w.len() >= 2 && w[0] == s && w.last() == v;
                    lemma_walk_push(edge, w, u);
                }
            }
            assert forall|k: int| 0 <= k < stack@.len() implies (#[trigger] stack@[k]) < n && visited@[stack@[k] as int] by {
                if k < st_popped.len() {
                    assert(stack@[k] == st_popped[k]);
                    assert(st_before[k] == st_popped[k]);
                }
            }
            assert forall|u: int, j: int|
                0 <= u < n && visited@[u] && !stack@.contains(u as usize) && #[trigger] edge(u, j) implies visited@[j] by {
                if u == v {
                    let k = choose|k: int| 0 <= k < adj@[u]@.len() && adj@[u]@[k] == j as usize;
                    assert(visited@[adj@[u]@[k] as int]);
                } else {
                    assert(v_before[u]);
                    if st_before.contains(u as usize) {
                        let t = choose|t: int| 0 <= t < st_before.len() && st_before[t] == u as usize;
                        assert(t < st_popped.len());
                        assert(stack@[t] == st_popped[t]);
                    }
                    assert(v_before[j]);
                }
            }
        }
    }
    proof {
        if reaches(edge, s as int, s as int) {
            let w = choose|w: Seq<int>| #[trigger] is_walk(edge, w) && w.len() >= 2 && w[0] == s && w.last() == s;
            lemma_walk_stays_closed(edge, w, s as int, marked(visited@));
        }
    }
    visited[s]
}

/// Whether the graph of the adjacency lists has a cycle.
pub fn has_cycle(adj: &Vec<Vec<usize>>) -> (r: bool)
    requires
        adj_in_range(adj@),
    ensures
        r == cyclic(adj_rel(adj@), adj@.len() as int),
{
    let mut s: usize = 0;
    while s < adj.len()
        invariant
            s <= adj@.len(),
            adj_in_range(adj@),
            forall|t: int| 0 <= t < s ==> !#[trigger] reaches(adj_rel(adj@), t, t),
        decreases adj@.len() - s,
    {
        if reaches_back(adj, s) {
            return true;
        }
        s += 1;
    }
    false
}

// ============================================================================
// The causal graph of a proof history
// ============================================================================

/// Outcome of a meta-consistency validation that did not pass.
#[derive(Debug, Clone, PartialEq)]
pub enum MetaConsistencyError {
    /// The base validation (digest, witness, axioms) failed.
    Base(GenesisError),
    /// The causal graph has a cycle: it is not a DAG.
    CausalCycle,
    /// The candidate conflicts with an accepted proof.
    Conflict {
        /// Digest of the candidate proof.
        candidate: ProofHash,
        /// Digest of the accepted proof it collides with.
        existing: ProofHash,
    },
}

/// The causal links of a proof: its parent, then its premises.
pub open spec fn links(p: &Proof) -> Seq<ProofHash> {
    match p.parent_proof_hash {
        Some(h) => seq![h] + p.premises.items(),
        None => p.premises.items(),
    }
}

/// A link to digest `h` resolves to position `j` of `all`: the first proof
/// carrying that digest.
pub open spec fn resolves(all: Seq<&Proof>, h: ProofHash, j: int) -> bool {
    &&& 0 <= j < all.len()
    &&& all[j].hash@ == h@
    &&& forall|i: int| 0 <= i < j ==> (#[trigger] all[i]).hash@ != h@
}

/// The proof at `i` links to the proof at `j`.
pub open spec fn causal_edge(all: Seq<&Proof>, i: int, j: int) -> bool {
    &&& 0 <= i < all.len()
    &&& exists|k: int| 0 <= k < links(all[i]).len() && resolves(all, #[trigger] links(all[i])[k], j)
}

/// The causal link relation of `all`.
pub open spec fn causal_rel(all: Seq<&Proof>) -> spec_fn(int, int) -> bool {
    |i: int, j: int| causal_edge(all, i, j)
}

/// The causal graph of `all` has a cycle.
pub open spec fn has_causal_cycle(all: Seq<&Proof>) -> bool {
    cyclic(causal_rel(all), all.len() as int)
}

fn link_hashes(p: &Proof) -> (v: Vec<ProofHash>)
    ensures
        v@ == links(p),
{
    let mut v: Vec<ProofHash> = Vec::new();
    match p.parent_proof_hash {
        Some(h) => v.push(h),
        None => {},
    }
    let ghost start = v@;
    let ps = p.premises.as_slice();
    let mut i: usize = 0;
    while i < ps.len()
        invariant
            i <= ps@.len(),
            v@ == start + ps@.take(i as int),
        decreases ps@.len() - i,
    {
        v.push(ps[i]);
        proof {
            assert(ps@.take(i as int + 1) =~= ps@.take(i as int).push(ps@[i as int]));
            assert(start + ps@.take(i as int + 1) =~= (start + ps@.take(i as int)).push(ps@[i as int]));
        }
        i += 1;
    }
    proof {
        assert(ps@.take(i as int) =~= ps@);
        match p.parent_proof_hash {
            Some(h) => {
                assert(start =~= seq![h]);
            },
            None => {
                assert(start =~= Seq::<ProofHash>::empty());
                assert(start + ps@ =~= ps@);
            },
        }
    }
    v
}

/// The first position of `all` whose digest is `h`.
fn resolve(all: &Vec<&Proof>, h: &ProofHash) -> (r: Option<usize>)
    ensures
        r matches Some(j) ==> resolves(all@, *h, j as int),
        r is None ==> forall|j: int| 0 <= j < all@.len() ==> (#[trigger] all@[j]).hash@ != h@,
{
    let mut j: usize = 0;
    while j < all.len()
        invariant
            j <= all@.len(),
            forall|i: int| 0 <= i < j ==> (#[trigger] all@[i]).hash@ != h@,
        decreases all@.len() - j,
    {
        if hash_eq(&all[j].hash, h) {
            return Some(j);
        }
        j += 1;
    }
    None
}

/// Adjacency lists of the causal graph of `all`.
fn causal_adjacency(all: &Vec<&Proof>) -> (adj: Vec<Vec<usize>>)
    ensures
        adj@.len() == all@.len(),
        adj_in_range(adj@),
        adj_rel(adj@) == causal_rel(all@),
{
    let n = all.len();
    let mut adj: Vec<Vec<usize>> = Vec::new();
    let mut i: usize = 0;
    while i < n
        invariant
            n == all@.len(),
            i <= n,
            adj@.len() == i,
            forall|a: int, k: int| 0 <= a < i && 0 <= k < adj@[a]@.len() ==> (#[trigger] adj@[a]@[k]) < n,
            forall|a: int, j: int| 0 <= a < i ==> (#[trigger] adj@[a]@.contains(j as usize) && 0 <= j < n) == causal_edge(all@, a, j),
        decreases n - i,
    {
        let hs = link_hashes(all[i]);
        let mut row: Vec<usize> = Vec::new();
        let mut k: usize = 0;
        while k < hs.len()
            invariant
                n == all@.len(),
                i < n,
                hs@ == links(all@[i as int]),
                k <= hs@.len(),
                forall|t: int| 0 <= t < row@.len() ==> (#[trigger] row@[t]) < n,
                forall|j: int| 0 <= j < n ==> (#[trigger] row@.contains(j as usize) <==> exists|t: int|
                    0 <= t < k && resolves(all@, #[trigger] hs@[t], j)),
            decreases hs@.len() - k,
        {
            let found = resolve(all, &hs[k]);
            let ghost row0 = row@;
            match found {
                Some(j) => {
                    row.push(j);
                },
                None => {},
            }
            proof {
                assert forall|j: int| 0 <= j < n implies (#[trigger] row@.contains(j as usize) <==> exists|t: int|
                    0 <= t < k + 1 && resolves(all@, #[trigger] hs@[t], j)) by {
                    if row@.contains(j as usize) {
                        if row0.contains(j as usize) {
                            let t = choose|t: int| 0 <= t < k && resolves(all@, #[trigger] hs@[t], j);
                            assert(0 <= t < k + 1 && resolves(all@, hs@[t], j));
                        } else {
                            let q = choose|q: int| 0 <= q < row@.len() && row@[q] == j as usize;
                            assert(q == row0.len());
                            assert(resolves(all@, hs@[k as int], j));
                        }
                    }
                    if exists|t: int| 0 <= t < k + 1 && resolves(all@, #[trigger] hs@[t], j) {
                        let t = choose|t: int| 0 <= t < k + 1 && resolves(all@, #[trigger] hs@[t], j);
                        if t < k {
                            assert(row0.contains(j as usize));
                            let q = choose|q: int| 0 <= q < row0.len() && row0[q] == j as usize;
                            assert(row@[q] == j as usize);
                        } else {
                            match found {
                                Some(j2) => {
                                    assert(j2 == j);
                                    assert(row@[row0.len() as int] == j as usize);
                                },
                                None => {
                                    assert(all@[j].hash@ == hs@[k as int]@);
                                },
                            }
                        }
                    }
                }
            }
            k += 1;
        }
        adj.push(row);
        proof {
            assert forall|j: int| 0 <= j < n implies (#[trigger] adj@[i as int]@.contains(j as usize) && 0 <= j < n)
                == causal_edge(all@, i as int, j) by {
                if causal_edge(all@, i as int, j) {
                    let t = choose|t: int| 0 <= t < links(all@[i as int]).len() && resolves(all@, #[trigger] links(all@[i as int])[t], j);
                    assert(resolves(all@, hs@[t], j));
                }
            }
            assert forall|a: int, j: int| 0 <= a < i + 1 implies (#[trigger] adj@[a]@.contains(j as usize) && 0 <= j < n)
                == causal_edge(all@, a, j) by {
                if a == i && !(0 <= j < n) {
                    if causal_edge(all@, a, j) {
                        let t = choose|t: int| 0 <= t < links(all@[a]).len() && resolves(all@, #[trigger] links(all@[a])[t], j);
                    }
                }
            }
        }
        i += 1;
    }
    proof {
        assert forall|a: int, j: int| #[trigger] adj_rel(adj@)(a, j) == causal_rel(all@)(a, j) by {
            if 0 <= a < n {
                if 0 <= j < n {
                    assert((adj@[a]@.contains(j as usize) && 0 <= j < n) == causal_edge(all@, a, j));
                } else if causal_edge(all@, a, j) {
                    let t = choose|t: int| 0 <= t < links(all@[a]).len() && resolves(all@, #[trigger] links(all@[a])[t], j);
                }
            }
        }
        assert(adj_rel(adj@) =~= causal_rel(all@));
    }
    adj
}

/// Rejects a candidate whose causal links, together with the history's,
/// close a cycle.
fn ensure_dag(candidate: &Proof, history: &[&Proof]) -> (r: Result<(), MetaConsistencyError>)
    ensures
        r is Err <==> has_causal_cycle(history@.push(candidate)),
        r is Err ==> r->Err_0 == MetaConsistencyError::CausalCycle,
{
    let mut all: Vec<&Proof> = Vec::new();
    let mut i: usize = 0;
    while i < history.len()
        invariant
            i <= history@.len(),
            all@ == history@.take(i as int),
        decreases history@.len() - i,
    {
        all.push(history[i]);
        proof {
            assert(history@.take(i as int + 1) =~= history@.take(i as int).push(history@[i as int]));
        }
        i += 1;
    }
    all.push(candidate);
    proof {
        assert(history@.take(i as int) =~= history@);
    }
    let adj = causal_adjacency(&all);
    if has_cycle(&adj) {
        Err(MetaConsistencyError::CausalCycle)
    } else {
        Ok(())
    }
}

// ============================================================================
// Conflict rules and the validator
// ============================================================================

/// A pluggable rule deciding whether a candidate proof and an accepted one
/// are mutually incompatible.
pub trait ConflictRule {
    /// Whether `candidate` and `existing` conflict under this rule.
    spec fn spec_conflicts(&self, candidate: &Proof, existing: &Proof) -> bool;

    /// Whether `candidate` and `existing` conflict under this rule.
    fn conflicts(&self, candidate: &Proof, existing: &Proof) -> (r: bool)
        ensures
            r == self.spec_conflicts(candidate, existing);
}

/// Same origin node, same target domain, different resulting state.
pub open spec fn meta_conflict(c: Option<ProofMeta>, e: Option<ProofMeta>) -> bool {
    match (c, e) {
        (Some(c), Some(e)) => c.origin_node.raw() == e.origin_node.raw() && c.target_domain_hash@
            == e.target_domain_hash@ && c.resulting_state_hash@ != e.resulting_state_hash@,
        _ => false,
    }
}

/// The base conflict rule: both proofs carry metadata naming the same node
/// and the same domain, with different resulting states.
#[derive(Debug, Clone, Copy, Default)]
pub struct NodeDomainStateConflictRule;

impl ConflictRule for NodeDomainStateConflictRule {
    open spec fn spec_conflicts(&self, candidate: &Proof, existing: &Proof) -> bool {
        meta_conflict(candidate.meta, existing.meta)
    }

    fn conflicts(&self, candidate: &Proof, existing: &Proof) -> (r: bool) {
        match (&candidate.meta, &existing.meta) {
            (Some(c), Some(e)) => {
                c.origin_node.get() == e.origin_node.get() && hash_eq(&c.target_domain_hash, &e.target_domain_hash)
                    && !hash_eq(&c.resulting_state_hash, &e.resulting_state_hash)
            },
            _ => false,
        }
    }
}

/// The base rule reports a conflict exactly when both proofs carry
/// metadata, name the same origin node and the same target domain, and
/// reach different resulting states. Proofs from different origin nodes
/// never conflict.
pub proof fn lemma_base_rule_conflicts(candidate: &Proof, existing: &Proof)
    ensures
        (NodeDomainStateConflictRule).spec_conflicts(candidate, existing) <==> (candidate.meta is Some
            && existing.meta is Some && candidate.meta->Some_0.origin_node
            == existing.meta->Some_0.origin_node && candidate.meta->Some_0.target_domain_hash@
            == existing.meta->Some_0.target_domain_hash@ && candidate.meta->Some_0.resulting_state_hash@
            != existing.meta->Some_0.resulting_state_hash@),
{
    if candidate.meta is Some && existing.meta is Some {
        NodeId::lemma_raw_injective(
            candidate.meta->Some_0.origin_node,
            existing.meta->Some_0.origin_node,
        );
    }
}

/// Under the base rule, a candidate whose causal graph with the history is
/// acyclic is accepted when no accepted proof shares its origin node.
pub proof fn lemma_other_origins_accepted(candidate: &Proof, history: Seq<&Proof>)
    requires
        !has_causal_cycle(history.push(candidate)),
        forall|k: int|
            0 <= k < history.len() ==> candidate.meta is None || (#[trigger] history[k]).meta is None
                || candidate.meta->Some_0.origin_node != history[k].meta->Some_0.origin_node,
    ensures
        history_outcome(&NodeDomainStateConflictRule, candidate, history) == Ok::<
            (),
            MetaConsistencyError,
        >(()),
{
    if exists|k: int| #[trigger] first_conflict(&NodeDomainStateConflictRule, candidate, history, k) {
        let k = choose|k: int| #[trigger] first_conflict(&NodeDomainStateConflictRule, candidate, history, k);
        lemma_base_rule_conflicts(candidate, history[k]);
    }
}

/// `k` is the first position of `history` that conflicts with `candidate`.
pub open spec fn first_conflict<R: ConflictRule>(rule: &R, candidate: &Proof, history: Seq<&Proof>, k: int) -> bool {
    &&& 0 <= k < history.len()
    &&& rule.spec_conflicts(candidate, history[k])
    &&& forall|i: int| 0 <= i < k ==> !rule.spec_conflicts(candidate, #[trigger] history[i])
}

/// The outcome of validating `candidate` against `history`: a causal cycle
/// first, then the first conflicting accepted proof, else success.
pub open spec fn history_outcome<R: ConflictRule>(rule: &R, candidate: &Proof, history: Seq<&Proof>) -> Result<
    (),
    MetaConsistencyError,
> {
    if has_causal_cycle(history.push(candidate)) {
        Err(MetaConsistencyError::CausalCycle)
    } else if exists|k: int| #[trigger] first_conflict(rule, candidate, history, k) {
        let k = choose|k: int| #[trigger] first_conflict(rule, candidate, history, k);
        Err(MetaConsistencyError::Conflict { candidate: candidate.hash, existing: history[k].hash })
    } else {
        Ok(())
    }
}

/// Historical validation over internally valid proofs, under a pluggable
/// conflict rule.
#[derive(Debug, Clone)]
pub struct MetaConsistencyValidator<R: ConflictRule = NodeDomainStateConflictRule> {
    rule: R,
}

impl<R: ConflictRule> MetaConsistencyValidator<R> {
    /// The conflict rule in use.
    pub closed spec fn rule(&self) -> &R {
        &self.rule
    }

    /// A validator with the given conflict rule.
    pub fn new(rule: R) -> (v: Self)
        ensures
            *v.rule() == rule,
    {
        MetaConsistencyValidator { rule }
    }

    /// Validates `candidate` against the accepted `history`: the causal
    /// graph of both must be a DAG, and no accepted proof may conflict with
    /// the candidate (the first conflicting one is reported).
    pub fn validate_against_history(&self, candidate: &Proof, history: &[&Proof]) -> (r: Result<
        (),
        MetaConsistencyError,
    >)
        ensures
            r == history_outcome(self.rule(), candidate, history@),
    {
        let dag = ensure_dag(candidate, history);
        if dag.is_err() {
            return Err(MetaConsistencyError::CausalCycle);
        }
        let mut k: usize = 0;
        while k < history.len()
            invariant
                k <= history@.len(),
                !has_causal_cycle(history@.push(candidate)),
                forall|i: int| 0 <= i < k ==> !self.rule().spec_conflicts(candidate, #[trigger] history@[i]),
            decreases history@.len() - k,
        {
            if self.rule.conflicts(candidate, history[k]) {
                proof {
                    assert(first_conflict(self.rule(), candidate, history@, k as int));
                    let c = choose|c: int| #[trigger] first_conflict(self.rule(), candidate, history@, c);
                    if c < k {
                        assert(!self.rule().spec_conflicts(candidate, history@[c]));
                    } else if c > k {
                        assert(!self.rule().spec_conflicts(candidate, history@[k as int]));
                    }
                }
                return Err(MetaConsistencyError::Conflict { candidate: candidate.hash, existing: history[k].hash });
            }
            k += 1;
        }
        proof {
            if exists|c: int| #[trigger] first_conflict(self.rule(), candidate, history@, c) {
                let c = choose|c: int| #[trigger] first_conflict(self.rule(), candidate, history@, c);
                assert(!self.rule().spec_conflicts(candidate, history@[c]));
            }
        }
        Ok(())
    }
}

impl Default for MetaConsistencyValidator<NodeDomainStateConflictRule> {
    fn default() -> (v: Self)
        ensures
            *v.rule() == (NodeDomainStateConflictRule),
    {
        MetaConsistencyValidator { rule: NodeDomainStateConflictRule }
    }
}

/// The outcome of the base validation followed by the historical one.
pub open spec fn meta_outcome<R: ConflictRule>(
    rule: &R,
    proof: &Proof,
    required: Seq<AxiomID>,
    history: Seq<&Proof>,
) -> Result<(), MetaConsistencyError> {
    match spec_verify(*proof, required) {
        Err(e) => Err(MetaConsistencyError::Base(e)),
        Ok(()) => history_outcome(rule, proof, history),
    }
}

impl AxiomGuard {
    /// Verifies the base layer, then the historical meta-consistency.
    pub fn verify_with_meta<R: ConflictRule>(
        proof: &Proof,
        required: &[AxiomID],
        history: &[&Proof],
        validator: &MetaConsistencyValidator<R>,
    ) -> (r: Result<(), MetaConsistencyError>)
        ensures
            r == meta_outcome(validator.rule(), proof, required@, history@),
    {
        match AxiomGuard::verify_with_error(proof, required) {
            Err(e) => Err(MetaConsistencyError::Base(e)),
            Ok(()) => validator.validate_against_history(proof, history),
        }
    }
}

} // verus!
