//! Canonical phase-semantics markers and records shared by the
//! interpretation layers.
use vstd::prelude::*;

use crate::error::GenesisError;
use crate::signal::NodeId;

verus! {

/// Maximum inline capacity of a semantic cluster node list.
pub const SEMANTIC_CLUSTER_MAX_NODES: usize = 8usize;

/// Semantic partition of the wrapped phase `[0, 2π)`.
#[derive(Debug, Clone, Copy, PartialEq, Eq, Structural)]
pub enum PhaseRegion {
    /// `[0, π/4)`
    Certainty,
    /// `[π/4, π/2)`
    Integration,
    /// `[π/2, π)`
    Exploration,
    /// `[π, 3π/2)`
    Tension,
    /// `[3π/2, 2π)`
    Release,
}

/// Primary semantic interpretation marker per node.
#[derive(Debug, Clone, Copy, PartialEq, Eq, PartialOrd, Ord, Structural)]
pub enum SemanticMarker {
    /// Coherent low-surprise regime.
    Certainty,
    /// Integration regime with convergent coupling.
    Integration,
    /// Broad search / novelty regime.
    Exploration,
    /// Divergent neighbouring semantics.
    Conflict,
    /// Low-amplitude semantic collapse.
    Collapse,
}

/// Metastable cognitive regime of the network.
#[derive(Debug, Clone, Copy, PartialEq, Eq, Structural)]
pub enum MetaState {
    /// High stability and coherent semantics.
    StableMeaning,
    /// Dynamic exploratory regime.
    ExploratoryFlux,
    /// High local semantic tension.
    CognitiveTension,
    /// System-wide semantic degradation.
    SemanticCollapse,
}

/// Short persistent semantic trace per node.
#[derive(Debug, Clone, Copy, PartialEq, Eq, Structural)]
pub struct SemanticTrace {
    /// Previous semantic marker.
    pub previous_marker: SemanticMarker,
    /// Consecutive duration in the same marker.
    pub duration: u32,
}

/// Resonant local cluster of semantically aligned nodes.
///
/// The mean local coherence in `[0, 1]` is carried as the bit pattern of
/// its `f64`.
#[derive(Debug, Clone, Copy)]
pub struct SemanticCluster {
    /// Cluster members in canonical sorted order, then sentinels.
    pub nodes: [NodeId; 8],
    /// Number of active entries in `nodes`.
    pub node_count: u8,
    /// Cluster representative marker.
    pub marker: SemanticMarker,
    /// Bit pattern of the mean local coherence.
    pub coherence_bits: u64,
}

/// A node list is canonical: strictly increasing identifiers, none of them
/// the sentinel, at most the cluster capacity.
pub open spec fn canonical_nodes(nodes: Seq<NodeId>) -> bool {
    &&& nodes.len() <= SEMANTIC_CLUSTER_MAX_NODES
    &&& forall|i: int| 0 <= i < nodes.len() ==> (#[trigger] nodes[i]).raw() != u64::MAX
    &&& forall|i: int, j: int| 0 <= i < j < nodes.len() ==> (#[trigger] nodes[i]).raw() < (#[trigger] nodes[j]).raw()
}

/// The first position whose entry is the sentinel or does not increase,
/// scanning in order (the input length when there is none).
pub open spec fn first_bad(nodes: Seq<NodeId>) -> int
    decreases nodes.len(),
{
    if nodes.len() == 0 {
        0
    } else {
        let k = first_bad(nodes.drop_last());
        let last = nodes.len() - 1;
        if k < last {
            k
        } else if nodes[last].raw() == u64::MAX || (last > 0 && nodes[last].raw() <= nodes[last - 1].raw()) {
            last
        } else {
            nodes.len() as int
        }
    }
}

/// The error the canonicalisation of `nodes` reports, if any: capacity
/// first, then the first offending entry in order.
pub open spec fn canonicalize_error(nodes: Seq<NodeId>) -> Option<GenesisError> {
    if nodes.len() > SEMANTIC_CLUSTER_MAX_NODES {
        Some(GenesisError::InvariantViolation { axiom_id: 4 })
    } else if first_bad(nodes) < nodes.len() {
        if nodes[first_bad(nodes)].raw() == u64::MAX {
            Some(GenesisError::NodeIdOutOfRange { raw: u64::MAX })
        } else {
            Some(GenesisError::InvariantViolation { axiom_id: 4 })
        }
    } else {
        None
    }
}

proof fn lemma_first_bad(nodes: Seq<NodeId>)
    ensures
        0 <= first_bad(nodes) <= nodes.len(),
        forall|i: int| 0 <= i < first_bad(nodes) ==> (#[trigger] nodes[i]).raw() != u64::MAX,
        forall|i: int| 0 < i < first_bad(nodes) ==> (#[trigger] nodes[i - 1]).raw() < nodes[i].raw(),
        first_bad(nodes) < nodes.len() ==> (nodes[first_bad(nodes)].raw() == u64::MAX || (first_bad(nodes)
            > 0 && nodes[first_bad(nodes)].raw() <= nodes[first_bad(nodes) - 1].raw())),
    decreases nodes.len(),
{
    if nodes.len() > 0 {
        let init = nodes.drop_last();
        lemma_first_bad(init);
        assert forall|i: int| 0 <= i < init.len() implies init[i] == nodes[i] by {}
    }
}

proof fn lemma_first_bad_prefix(nodes: Seq<NodeId>, k: int)
    requires
        0 <= k <= nodes.len(),
        forall|i: int| 0 <= i < k ==> (#[trigger] nodes[i]).raw() != u64::MAX,
        forall|i: int| 0 < i < k ==> (#[trigger] nodes[i - 1]).raw() < nodes[i].raw(),
    ensures
        first_bad(nodes.take(k)) == k,
    decreases k,
{
    if k > 0 {
        lemma_first_bad_prefix(nodes, k - 1);
        assert(nodes.take(k).drop_last() =~= nodes.take(k - 1));
    }
}

proof fn lemma_first_bad_stop(nodes: Seq<NodeId>, k: int)
    requires
        0 <= k < nodes.len(),
        first_bad(nodes.take(k)) == k,
        nodes[k].raw() == u64::MAX || (k > 0 && nodes[k].raw() <= nodes[k - 1].raw()),
    ensures
        first_bad(nodes) == k,
    decreases nodes.len(),
{
    if nodes.len() == k + 1 {
        assert(nodes.drop_last() =~= nodes.take(k));
    } else {
        let init = nodes.drop_last();
        assert(init.take(k) =~= nodes.take(k));
        lemma_first_bad_stop(init, k);
    }
}

proof fn lemma_increasing_is_sorted(nodes: Seq<NodeId>)
    requires
        forall|i: int| 0 < i < nodes.len() ==> (#[trigger] nodes[i - 1]).raw() < nodes[i].raw(),
    ensures
        forall|i: int, j: int| 0 <= i < j < nodes.len() ==> (#[trigger] nodes[i]).raw() < (#[trigger] nodes[j]).raw(),
    decreases nodes.len(),
{
    if nodes.len() > 0 {
        let init = nodes.drop_last();
        lemma_increasing_is_sorted(init);
        assert forall|i: int, j: int| 0 <= i < j < nodes.len() implies (#[trigger] nodes[i]).raw() < (
        #[trigger] nodes[j]).raw() by {
            if j < nodes.len() - 1 {
                assert(init[i] == nodes[i] && init[j] == nodes[j]);
            } else if i < j - 1 {
                assert(init[i] == nodes[i] && init[j - 1] == nodes[j - 1]);
                assert(nodes[j - 1].raw() < nodes[j].raw());
            }
        }
    }
}

impl SemanticCluster {
    /// Canonicalises a candidate node slice into fixed-capacity storage:
    /// the active entries in order, then sentinels.
    ///
    /// Fails with `InvariantViolation { axiom_id: 4 }` when the slice is
    /// over capacity or not strictly increasing, and with `NodeIdOutOfRange`
    /// when the sentinel appears (whichever the scan meets first).
    pub fn canonicalize_nodes(nodes: &[NodeId]) -> (r: Result<([NodeId; 8], u8), GenesisError>)
        ensures
            r is Err <==> canonicalize_error(nodes@) is Some,
            r matches Err(e) ==> Some(e) == canonicalize_error(nodes@),
            r matches Ok((fixed, count)) ==> {
                &&& count == nodes@.len()
                &&& canonical_nodes(nodes@)
                &&& forall|i: int| 0 <= i < nodes@.len() ==> #[trigger] fixed@[i] == nodes@[i]
                &&& forall|i: int| nodes@.len() <= i < 8 ==> (#[trigger] fixed@[i]).raw() == u64::MAX
            },
    {
        if nodes.len() > SEMANTIC_CLUSTER_MAX_NODES {
            return Err(GenesisError::InvariantViolation { axiom_id: 4 });
        }
        let n = nodes.len();
        let mut k: usize = 0;
        while k < n
            invariant
                n == nodes@.len(),
                k <= n,
                n <= 8,
                forall|i: int| 0 <= i < k ==> (#[trigger] nodes@[i]).raw() != u64::MAX,
                forall|i: int| 0 < i < k ==> (#[trigger] nodes@[i - 1]).raw() < nodes@[i].raw(),
            decreases n - k,
        {
            let node = nodes[k];
            let bad_sentinel = node.get() == u64::MAX;
            let bad_order = k > 0 && node.get() <= nodes[k - 1].get();
            if bad_sentinel || bad_order {
                proof {
                    lemma_first_bad_prefix(nodes@, k as int);
                    lemma_first_bad_stop(nodes@, k as int);
                }
                if bad_sentinel {
                    return Err(GenesisError::NodeIdOutOfRange { raw: u64::MAX });
                }
                return Err(GenesisError::InvariantViolation { axiom_id: 4 });
            }
            k += 1;
        }
        proof {
            lemma_first_bad_prefix(nodes@, n as int);
            assert(nodes@.take(n as int) =~= nodes@);
            lemma_increasing_is_sorted(nodes@);
        }
        let sentinel = NodeId::invalid();
        let mut fixed: [NodeId; 8] = [sentinel; 8];
        let mut i: usize = 0;
        while i < n
            invariant
                n == nodes@.len(),
                n <= 8,
                i <= n,
                sentinel.raw() == u64::MAX,
                forall|j: int| 0 <= j < i ==> #[trigger] fixed@[j] == nodes@[j],
                forall|j: int| i <= j < 8 ==> #[trigger] fixed@[j] == sentinel,
            decreases n - i,
        {
            fixed[i] = nodes[i];
            i += 1;
        }
        Ok((fixed, n as u8))
    }

    /// Builds a cluster from an ordered node slice, failing as
    /// [`SemanticCluster::canonicalize_nodes`] does.
    pub fn from_nodes(nodes: &[NodeId], marker: SemanticMarker, coherence_bits: u64) -> (r: Result<
        SemanticCluster,
        GenesisError,
    >)
        ensures
            r is Err <==> canonicalize_error(nodes@) is Some,
            r matches Err(e) ==> Some(e) == canonicalize_error(nodes@),
            r matches Ok(c) ==> {
                &&& c.node_count == nodes@.len()
                &&& c.marker == marker
                &&& c.coherence_bits == coherence_bits
                &&& forall|i: int| 0 <= i < nodes@.len() ==> #[trigger] c.nodes@[i] == nodes@[i]
                &&& forall|i: int| nodes@.len() <= i < 8 ==> (#[trigger] c.nodes@[i]).raw() == u64::MAX
                &&& c.nodes@.take(c.node_count as int) == nodes@
            },
    {
        match Self::canonicalize_nodes(nodes) {
            Ok((fixed, node_count)) => {
                proof {
                    assert(fixed@.take(node_count as int) =~= nodes@);
                }
                Ok(SemanticCluster { nodes: fixed, node_count, marker, coherence_bits })
            },
            Err(e) => Err(e),
        }
    }

    /// The canonical fixed-storage key used for identity checks and
    /// deduplication: the active members canonicalised into fresh storage
    /// (inactive slots hold the sentinel, whatever the cluster's own
    /// inactive slots hold).
    pub fn canonical_key(&self) -> (r: Result<([NodeId; 8], u8), GenesisError>)
        ensures
            self.node_count > 8 ==> r is Err && r->Err_0 == (GenesisError::InvariantViolation { axiom_id: 4 }),
            self.node_count <= 8 ==> (r is Err <==> canonicalize_error(self.nodes@.take(self.node_count as int)) is Some),
            self.node_count <= 8 && r is Err ==> Some(r->Err_0) == canonicalize_error(
                self.nodes@.take(self.node_count as int),
            ),
            r matches Ok((fixed, count)) ==> {
                &&& count == self.node_count
                &&& forall|i: int| 0 <= i < count ==> #[trigger] fixed@[i] == self.nodes@[i]
                &&& forall|i: int| count <= i < 8 ==> (#[trigger] fixed@[i]).raw() == u64::MAX
            },
    {
        let node_count = self.node_count as usize;
        if node_count > 8 {
            return Err(GenesisError::InvariantViolation { axiom_id: 4 });
        }
        let active = self.nodes_prefix(node_count);
        Self::canonicalize_nodes(active.as_slice())
    }

    fn nodes_prefix(&self, count: usize) -> (v: Vec<NodeId>)
        requires
            count <= 8,
        ensures
            v@ == self.nodes@.take(count as int),
    {
        let mut v: Vec<NodeId> = Vec::new();
        let mut i: usize = 0;
        while i < count
            invariant
                i <= count <= 8,
                v@ == self.nodes@.take(i as int),
            decreases count - i,
        {
            v.push(self.nodes[i]);
            proof {
                assert(self.nodes@.take(i as int + 1) =~= self.nodes@.take(i as int).push(self.nodes@[i as int]));
            }
            i += 1;
        }
        v
    }

    /// The active cluster members, or `InvariantViolation { axiom_id: 4 }`
    /// when the count exceeds the storage.
    pub fn nodes(&self) -> (r: Result<Vec<NodeId>, GenesisError>)
        ensures
            self.node_count > 8 ==> r == Err::<Vec<NodeId>, GenesisError>(
                GenesisError::InvariantViolation { axiom_id: 4 },
            ),
            self.node_count <= 8 ==> (r matches Ok(v) && v@ == self.nodes@.take(self.node_count as int)),
    {
        let node_count = self.node_count as usize;
        if node_count > 8 {
            return Err(GenesisError::InvariantViolation { axiom_id: 4 });
        }
        Ok(self.nodes_prefix(node_count))
    }
}

} // verus!
