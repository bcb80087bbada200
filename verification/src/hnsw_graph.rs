//! Structure of the HNSW graph: node slots, the identifier index, per-node
//! adjacency, the layer-0 edge count and the entry point.
//!
//! The vectors of the nodes, their distances and the distance-driven parts
//! of insertion and search are not held here; this type keeps what the
//! structural operations read and change, with the invariants that tie the
//! pieces together.
use vstd::prelude::*;
use vstd::relations::injective_on;
use vstd::set_lib::{lemma_int_range, lemma_map_size, lemma_subset_equality, set_int_range};

use crate::adjacency::{
    layer_budget, layer_max_neighbors, lemma_rank_bound, lemma_rank_member, lemma_without, rank,
    strictly_ascending, without, NodeAdj, M, MAX_LAYERS, M0,
};
use crate::error::GenesisError;
use crate::hnsw::{
    low, radix_sort_node_ids, radix_state, stable_sorted, try_compact_node_id, CompactNodeId,
    IndexEntry,
};
use crate::sort::{merge_sort, sorted_by_key, KeyOrder};
use crate::signal::NodeId;

verus! {

/// One node slot: its identifier (the sentinel once the node is removed)
/// and the highest layer it reaches.
#[derive(Clone, Copy, Debug)]
pub struct HnswNode {
    /// Identifier of the node, or [`NodeId::invalid`] for a removed node.
    pub id: NodeId,
    /// Highest layer the node reaches.
    pub max_layer: usize,
}

/// Phase of the identifier index.
#[derive(Clone, Copy, Debug, PartialEq, Eq, Structural)]
pub enum GraphState {
    /// Entries are appended in insertion order; lookups scan.
    Online,
    /// Entries are sorted by identifier; lookups bisect; insertion is closed.
    Compacted,
}

/// Highest number of node slots: internal indices fit in 32 bits with room
/// for the "absent" marker, and the layer-0 edge count fits in `usize`.
pub open spec fn slot_limit() -> int {
    if (usize::MAX as int) / 64 < 0xffff_fffe {
        (usize::MAX as int) / 64
    } else {
        0xffff_fffe
    }
}

/// Sum of the layer-0 degrees of a sequence of adjacency records.
pub open spec fn degree_sum(adj: Seq<NodeAdj>) -> nat
    decreases adj.len(),
{
    if adj.len() == 0 {
        0
    } else {
        degree_sum(adj.drop_last()) + adj.last().neighbors(0).len()
    }
}

/// Number of slots holding a live (not removed) node.
pub open spec fn live_count(nodes: Seq<HnswNode>) -> nat
    decreases nodes.len(),
{
    if nodes.len() == 0 {
        0
    } else {
        live_count(nodes.drop_last()) + if nodes.last().id.raw() != u64::MAX {
            1nat
        } else {
            0nat
        }
    }
}

/// The identifiers of the live nodes of `nodes`, in slot order.
pub open spec fn live_ids(nodes: Seq<HnswNode>) -> Seq<NodeId>
    decreases nodes.len(),
{
    if nodes.len() == 0 {
        Seq::empty()
    } else if nodes.last().id.raw() != u64::MAX {
        live_ids(nodes.drop_last()).push(nodes.last().id)
    } else {
        live_ids(nodes.drop_last())
    }
}

/// There are as many live identifiers as live nodes, and none of them is
/// the sentinel.
pub proof fn lemma_live_ids(nodes: Seq<HnswNode>)
    ensures
        live_ids(nodes).len() == live_count(nodes),
        forall|j: int| 0 <= j < live_ids(nodes).len() ==> #[trigger] live_ids(nodes)[j].raw() != u64::MAX,
    decreases nodes.len(),
{
    if nodes.len() > 0 {
        lemma_live_ids(nodes.drop_last());
    }
}

/// Whether slot `i` of `slots` holds the live node `id`.
pub open spec fn holds_in(slots: Seq<HnswNode>, id: NodeId, i: int) -> bool {
    0 <= i < slots.len() && slots[i].id.raw() != u64::MAX && slots[i].id == id
}

/// The slot of `slots` that holds the live node `id`, if any.
pub open spec fn slot_in(slots: Seq<HnswNode>, id: NodeId) -> Option<usize> {
    if exists|i: int| holds_in(slots, id, i) {
        Some((choose|i: int| holds_in(slots, id, i)) as usize)
    } else {
        None
    }
}

/// An identifier index entry for an identifier wider than 32 bits: the
/// identifier and its slot.
#[derive(Clone, Copy, Debug, PartialEq, Eq, Structural)]
pub struct WideEntry {
    /// The identifier.
    pub id: NodeId,
    /// Its slot.
    pub slot: usize,
}

/// Structure of an HNSW graph.
pub struct HnswGraph {
    nodes: Vec<HnswNode>,
    id_index: Vec<(CompactNodeId, usize)>,
    wide_id_index: Vec<WideEntry>,
    entry: Option<usize>,
    entry_layer: usize,
    ef_construction: usize,
    direct_index: Vec<u32>,
    state: GraphState,
    layer_neighbors: Vec<NodeAdj>,
    edge_count_layer0_undirected: usize,
    live_nodes: usize,
}

impl HnswGraph {
    /// The node slots, in internal-index order.
    pub closed spec fn slots(self) -> Seq<HnswNode> {
        self.nodes@
    }

    /// The adjacency of each slot.
    pub closed spec fn adjacency(self) -> Seq<NodeAdj> {
        self.layer_neighbors@
    }

    /// The entry point and its layer.
    pub closed spec fn entry_point(self) -> Option<(usize, usize)> {
        match self.entry {
            Some(e) => Some((e, self.entry_layer)),
            None => None,
        }
    }

    /// Candidate-list breadth used when a node is linked on insertion.
    pub closed spec fn construction_breadth(self) -> usize {
        self.ef_construction
    }

    /// Phase of the identifier index.
    pub closed spec fn phase(self) -> GraphState {
        self.state
    }

    /// Whether slot `i` holds a live node.
    pub open spec fn is_live(self, i: int) -> bool {
        0 <= i < self.slots().len() && self.slots()[i].id.raw() != u64::MAX
    }

    /// The neighbours of slot `i` at a layer.
    pub open spec fn nbrs(self, i: int, layer: int) -> Seq<u32> {
        self.adjacency()[i].neighbors(layer)
    }

    /// Whether identifier `id` names the live node in slot `i`.
    pub open spec fn holds(self, id: NodeId, i: int) -> bool {
        self.is_live(i) && self.slots()[i].id == id
    }

    /// The slot of a live identifier, if any.
    pub open spec fn slot_of(self, id: NodeId) -> Option<usize> {
        slot_in(self.slots(), id)
    }

    /// Slots and adjacency agree in number, stay within the slot limit, and
    /// every adjacency list is well formed, within its layer budget, free of
    /// self-loops, points at existing slots, and keeps on layer 0 the
    /// neighbour's own index as its slab position; removed nodes have none.
    pub open spec fn wf_structure(self) -> bool {
        let n = self.slots().len();
        &&& self.adjacency().len() == n
        &&& n <= slot_limit()
        &&& forall|i: int| 0 <= i < n ==> (#[trigger] self.adjacency()[i]).wf()
        &&& forall|i: int| 0 <= i < n ==> (#[trigger] self.slots()[i]).max_layer < MAX_LAYERS
        &&& forall|i: int, l: int|
            0 <= i < n && (l < 0 || l > self.slots()[i].max_layer) ==> #[trigger] self.nbrs(i, l)
                == Seq::<u32>::empty()
        &&& forall|i: int| 0 <= i < n ==> self.nbrs(i, 0).len() <= M0
        &&& forall|i: int, l: int| 0 <= i < n && l != 0 ==> #[trigger] self.nbrs(i, l).len() <= M
        &&& forall|i: int, l: int, k: int|
            0 <= i < n && 0 <= k < self.nbrs(i, l).len() ==> #[trigger] self.nbrs(i, l)[k] < n
                && self.nbrs(i, l)[k] != i
        &&& forall|i: int, k: int|
            0 <= i < n && 0 <= k < self.adjacency()[i].layer0_entries().len() ==> (#[trigger] self.adjacency()[i].layer0_entries()[k]).1
                == self.adjacency()[i].layer0_entries()[k].0
        &&& forall|i: int, l: int| 0 <= i < n && !self.is_live(i) ==> #[trigger] self.nbrs(i, l) == Seq::<u32>::empty()
    }
}

impl HnswGraph {
    /// The identifier index: live identifiers are unique; every live
    /// identifier that fits in 32 bits has exactly one compact entry, every
    /// other live identifier exactly one wide entry, and entries name live
    /// slots only; a direct-table hit names the live slot of that raw
    /// identifier; once compacted, both entry lists are sorted by identifier.
    pub closed spec fn wf_ids(self) -> bool {
        let ci = self.id_index@;
        let wi = self.wide_id_index@;
        let di = self.direct_index@;
        &&& forall|i: int, j: int|
            self.is_live(i) && self.is_live(j) && self.slots()[i].id == self.slots()[j].id ==> i == j
        &&& forall|k: int|
            0 <= k < ci.len() ==> self.is_live((#[trigger] ci[k]).1 as int) && self.slots()[ci[k].1 as int].id.raw()
                == ci[k].0.value()
        &&& forall|k1: int, k2: int| 0 <= k1 < k2 < ci.len() ==> (#[trigger] ci[k1]).0 != (#[trigger] ci[k2]).0
        &&& forall|i: int|
            #![trigger self.slots()[i]]
            self.is_live(i) && self.slots()[i].id.raw() <= u32::MAX ==> exists|k: int|
                0 <= k < ci.len() && (#[trigger] ci[k]).1 == i
        &&& forall|k: int|
            0 <= k < wi.len() ==> self.is_live((#[trigger] wi[k]).slot as int) && self.slots()[wi[k].slot as int].id
                == wi[k].id && wi[k].id.raw() > u32::MAX
        &&& forall|k1: int, k2: int| 0 <= k1 < k2 < wi.len() ==> (#[trigger] wi[k1]).id != (#[trigger] wi[k2]).id
        &&& forall|i: int|
            #![trigger self.slots()[i]]
            self.is_live(i) && self.slots()[i].id.raw() > u32::MAX ==> exists|k: int|
                0 <= k < wi.len() && (#[trigger] wi[k]).slot == i
        &&& forall|r: int|
            0 <= r < di.len() && #[trigger] di[r] != u32::MAX ==> self.is_live(di[r] as int)
                && self.slots()[di[r] as int].id.raw() == r
        &&& di.len() <= 0xffff_ffff
        &&& self.state == GraphState::Compacted ==> (forall|k1: int, k2: int|
            0 <= k1 < k2 < ci.len() ==> (#[trigger] ci[k1]).0.value() < (#[trigger] ci[k2]).0.value())
        &&& self.state == GraphState::Compacted ==> (forall|k1: int, k2: int|
            0 <= k1 < k2 < wi.len() ==> (#[trigger] wi[k1]).id.raw() < (#[trigger] wi[k2]).id.raw())
    }

    /// The layer-0 edge counter counts directed layer-0 edges and the live
    /// counter counts live slots.
    pub closed spec fn wf_counts(self) -> bool {
        &&& self.edge_count_layer0_undirected == degree_sum(self.adjacency())
        &&& self.live_nodes == live_count(self.slots())
    }

    /// The entry point exists exactly when some node is live, and is then a
    /// live node of the highest layer, recorded with that layer.
    pub open spec fn wf_entry(self) -> bool {
        &&& (self.entry_point() is Some <==> exists|i: int| self.is_live(i))
        &&& self.entry_point() matches Some((e, l)) ==> {
            &&& self.is_live(e as int)
            &&& l == self.slots()[e as int].max_layer
            &&& forall|i: int| #[trigger] self.is_live(i) ==> self.slots()[i].max_layer <= l
        }
    }

    /// All the invariants of the graph.
    pub open spec fn wf(self) -> bool {
        &&& self.wf_structure()
        &&& self.wf_ids()
        &&& self.wf_counts()
        &&& self.wf_entry()
    }

    /// The slot of an identifier is the one live slot that holds it.
    pub proof fn lemma_slot_of(self, id: NodeId, i: int)
        requires
            self.wf(),
            self.holds(id, i),
        ensures
            self.slot_of(id) == Some(i as usize),
    {
        assert(holds_in(self.slots(), id, i));
        let j = choose|j: int| holds_in(self.slots(), id, j);
        assert(holds_in(self.slots(), id, j));
    }

    /// Two graphs in which an identifier is held by the same slots give it
    /// the same slot.
    pub proof fn lemma_slot_of_same(self, other: HnswGraph, id: NodeId)
        requires
            self.wf(),
            other.wf(),
            forall|i: int| holds_in(self.slots(), id, i) == holds_in(other.slots(), id, i),
        ensures
            self.slot_of(id) == other.slot_of(id),
    {
        if exists|i: int| holds_in(self.slots(), id, i) {
            let i = choose|i: int| holds_in(self.slots(), id, i);
            assert(self.holds(id, i));
            assert(other.holds(id, i));
            self.lemma_slot_of(id, i);
            other.lemma_slot_of(id, i);
        }
    }

    /// Looks up the slot of a live identifier: through the direct table when
    /// it has an entry, else by scanning (online) or bisecting (compacted)
    /// the entry list of its width.
    pub fn idx(&self, id: NodeId) -> (r: Option<usize>)
        requires
            self.wf(),
        ensures
            r == self.slot_of(id),
    {
        let raw = id.get();
        let dlen = self.direct_index.len();
        if (dlen as u64) > raw {
            let d = self.direct_index[raw as usize];
            if d != u32::MAX {
                proof {
                    assert(self.direct_index@[raw as int] != u32::MAX);
                    NodeId::lemma_raw_injective(id, self.slots()[d as int].id);
                    self.lemma_slot_of(id, d as int);
                }
                return Some(d as usize);
            }
        }
        let sorted = self.state == GraphState::Compacted;
        match try_compact_node_id(id) {
            Some(compact) => {
                let key = compact.raw();
                let found = find_compact(&self.id_index, key, sorted);
                proof {
                    let ci = self.id_index@;
                    match found {
                        Some(slot) => {
                            let k = choose|k: int|
                                0 <= k < ci.len() && ci[k].0.value() == key && ci[k].1 == slot;
                            assert(self.is_live(ci[k].1 as int));
                            NodeId::lemma_raw_injective(id, self.slots()[slot as int].id);
                            self.lemma_slot_of(id, slot as int);
                        },
                        None => {
                            if exists|i: int| self.holds(id, i) {
                                let i = choose|i: int| self.holds(id, i);
                                assert(self.slots()[i].id.raw() <= u32::MAX);
                                let k = choose|k: int| 0 <= k < ci.len() && (#[trigger] ci[k]).1 == i;
                                assert(ci[k].0.value() == key);
                            }
                        },
                    }
                }
                found
            },
            None => {
                let found = find_wide(&self.wide_id_index, raw, sorted);
                proof {
                    let wi = self.wide_id_index@;
                    match found {
                        Some(slot) => {
                            let k = choose|k: int|
                                0 <= k < wi.len() && wi[k].id.raw() == raw && wi[k].slot == slot;
                            assert(self.is_live(wi[k].slot as int));
                            NodeId::lemma_raw_injective(id, wi[k].id);
                            self.lemma_slot_of(id, slot as int);
                        },
                        None => {
                            if exists|i: int| self.holds(id, i) {
                                let i = choose|i: int| self.holds(id, i);
                                assert(self.slots()[i].id.raw() > u32::MAX);
                                let k = choose|k: int| 0 <= k < wi.len() && (#[trigger] wi[k]).slot == i;
                                NodeId::lemma_raw_injective(id, wi[k].id);
                            }
                        },
                    }
                }
                found
            },
        }
    }
}

/// The slot recorded for a compact key: bisecting when the entries are
/// sorted by key, scanning otherwise.
fn find_compact(entries: &Vec<(CompactNodeId, usize)>, key: u32, sorted: bool) -> (r: Option<usize>)
    requires
        sorted ==> forall|k1: int, k2: int|
            0 <= k1 < k2 < entries@.len() ==> (#[trigger] entries@[k1]).0.value() < (#[trigger] entries@[k2]).0.value(),
    ensures
        r matches Some(slot) ==> exists|k: int|
            0 <= k < entries@.len() && entries@[k].0.value() == key && entries@[k].1 == slot,
        r is None ==> forall|k: int| 0 <= k < entries@.len() ==> (#[trigger] entries@[k]).0.value() != key,
{
    let ghost ci = entries@;
    if sorted {
        let mut lo: usize = 0;
        let mut hi: usize = entries.len();
        while lo < hi
            invariant
                lo <= hi <= ci.len(),
                ci == entries@,
                forall|k1: int, k2: int|
                    0 <= k1 < k2 < ci.len() ==> (#[trigger] ci[k1]).0.value() < (#[trigger] ci[k2]).0.value(),
                forall|k: int| 0 <= k < lo ==> ci[k].0.value() < key,
                forall|k: int| hi <= k < ci.len() ==> ci[k].0.value() > key,
            decreases hi - lo,
        {
            let mid = lo + (hi - lo) / 2;
            let (c, slot) = entries[mid];
            let v = c.raw();
            if v == key {
                return Some(slot);
            } else if v < key {
                proof {
                    assert forall|k: int| 0 <= k < mid + 1 implies ci[k].0.value() < key by {
                        if k < mid {
                            assert(ci[k].0.value() < ci[mid as int].0.value());
                        }
                    }
                }
                lo = mid + 1;
            } else {
                proof {
                    assert forall|k: int| mid <= k < ci.len() implies ci[k].0.value() > key by {
                        if k > mid {
                            assert(ci[mid as int].0.value() < ci[k].0.value());
                        }
                    }
                }
                hi = mid;
            }
        }
        None
    } else {
        let mut k: usize = 0;
        while k < entries.len()
            invariant
                k <= ci.len(),
                ci == entries@,
                forall|j: int| 0 <= j < k ==> ci[j].0.value() != key,
            decreases ci.len() - k,
        {
            let (c, slot) = entries[k];
            if c.raw() == key {
                return Some(slot);
            }
            k += 1;
        }
        None
    }
}

/// The slot recorded for a wide identifier: bisecting when the entries are
/// sorted by identifier, scanning otherwise.
fn find_wide(entries: &Vec<WideEntry>, raw: u64, sorted: bool) -> (r: Option<usize>)
    requires
        sorted ==> forall|k1: int, k2: int|
            0 <= k1 < k2 < entries@.len() ==> (#[trigger] entries@[k1]).id.raw() < (#[trigger] entries@[k2]).id.raw(),
    ensures
        r matches Some(slot) ==> exists|k: int|
            0 <= k < entries@.len() && entries@[k].id.raw() == raw && entries@[k].slot == slot,
        r is None ==> forall|k: int| 0 <= k < entries@.len() ==> (#[trigger] entries@[k]).id.raw() != raw,
{
    let ghost wi = entries@;
    if sorted {
        let mut lo: usize = 0;
        let mut hi: usize = entries.len();
        while lo < hi
            invariant
                lo <= hi <= wi.len(),
                wi == entries@,
                forall|k1: int, k2: int|
                    0 <= k1 < k2 < wi.len() ==> (#[trigger] wi[k1]).id.raw() < (#[trigger] wi[k2]).id.raw(),
                forall|k: int| 0 <= k < lo ==> wi[k].id.raw() < raw,
                forall|k: int| hi <= k < wi.len() ==> wi[k].id.raw() > raw,
            decreases hi - lo,
        {
            let mid = lo + (hi - lo) / 2;
            let e = entries[mid];
            let nid = e.id;
            let slot = e.slot;
            let v = nid.get();
            if v == raw {
                return Some(slot);
            } else if v < raw {
                proof {
                    assert forall|k: int| 0 <= k < mid + 1 implies wi[k].id.raw() < raw by {
                        if k < mid {
                            assert(wi[k].id.raw() < wi[mid as int].id.raw());
                        }
                    }
                }
                lo = mid + 1;
            } else {
                proof {
                    assert forall|k: int| mid <= k < wi.len() implies wi[k].id.raw() > raw by {
                        if k > mid {
                            assert(wi[mid as int].id.raw() < wi[k].id.raw());
                        }
                    }
                }
                hi = mid;
            }
        }
        None
    } else {
        let mut k: usize = 0;
        while k < entries.len()
            invariant
                k <= wi.len(),
                wi == entries@,
                forall|j: int| 0 <= j < k ==> wi[j].id.raw() != raw,
            decreases wi.len() - k,
        {
            let e = entries[k];
            let nid = e.id;
            let slot = e.slot;
            if nid.get() == raw {
                return Some(slot);
            }
            k += 1;
        }
        None
    }
}

proof fn lemma_degree_sum_push(adj: Seq<NodeAdj>, a: NodeAdj)
    ensures
        degree_sum(adj.push(a)) == degree_sum(adj) + a.neighbors(0).len(),
{
    assert(adj.push(a).drop_last() =~= adj);
}

proof fn lemma_live_count_push(nodes: Seq<HnswNode>, x: HnswNode)
    ensures
        live_count(nodes.push(x)) == live_count(nodes) + if x.id.raw() != u64::MAX {
            1nat
        } else {
            0nat
        },
{
    assert(nodes.push(x).drop_last() =~= nodes);
}

proof fn lemma_live_count_bound(nodes: Seq<HnswNode>)
    ensures
        live_count(nodes) <= nodes.len(),
    decreases nodes.len(),
{
    if nodes.len() > 0 {
        lemma_live_count_bound(nodes.drop_last());
    }
}

impl HnswGraph {
    /// An empty graph.
    pub fn new(ef_construction: usize) -> (g: HnswGraph)
        ensures
            g.wf(),
            g.slots() == Seq::<HnswNode>::empty(),
            g.phase() == GraphState::Online,
            g.entry_point() is None,
            g.construction_breadth() == ef_construction,
    {
        let g = HnswGraph {
            nodes: Vec::new(),
            id_index: Vec::new(),
            wide_id_index: Vec::new(),
            entry: None,
            entry_layer: 0,
            ef_construction,
            direct_index: Vec::new(),
            state: GraphState::Online,
            layer_neighbors: Vec::new(),
            edge_count_layer0_undirected: 0,
            live_nodes: 0,
        };
        proof {
            assert(g.slots() =~= Seq::<HnswNode>::empty());
            assert(g.adjacency() =~= Seq::<NodeAdj>::empty());
        }
        g
    }

    /// The entry point (slot and layer), if any node is live.
    pub fn entry_node(&self) -> (r: Option<(usize, usize)>)
        ensures
            r == self.entry_point(),
    {
        match self.entry {
            Some(e) => Some((e, self.entry_layer)),
            None => None,
        }
    }

    /// Number of live nodes.
    pub fn node_count(&self) -> (n: usize)
        requires
            self.wf(),
        ensures
            n == live_count(self.slots()),
    {
        self.live_nodes
    }

    /// Number of undirected layer-0 edges: half the directed ones.
    pub fn edge_count(&self) -> (n: usize)
        requires
            self.wf(),
        ensures
            n == degree_sum(self.adjacency()) / 2,
    {
        self.edge_count_layer0_undirected / 2
    }

    /// The identifiers of the nodes in the graph, in slot order; removed
    /// nodes are left out.
    pub fn nodes(&self) -> (ids: Vec<NodeId>)
        ensures
            ids@ == live_ids(self.slots()),
    {
        let mut ids: Vec<NodeId> = Vec::new();
        let mut k: usize = 0;
        while k < self.nodes.len()
            invariant
                k <= self.nodes@.len(),
                ids@ == live_ids(self.nodes@.take(k as int)),
            decreases self.nodes@.len() - k,
        {
            let n = self.nodes[k];
            proof {
                assert(self.nodes@.take(k as int + 1).drop_last() =~= self.nodes@.take(k as int));
            }
            if n.id.get() != u64::MAX {
                ids.push(n.id);
            }
            k += 1;
        }
        proof {
            assert(self.nodes@.take(k as int) =~= self.nodes@);
        }
        ids
    }

    /// The structural half of inserting a node: opens a slot for `id`
    /// reaching layer `level` with no edges, records it in the identifier
    /// index, and makes it the entry point when the graph was empty or it
    /// reaches higher than the current entry point. Linking it to its
    /// neighbours is left to the caller.
    ///
    /// Fails with `InvariantViolation { axiom_id: 13 }` once the index is
    /// compacted or when no slot is left, and with
    /// `InvariantViolation { axiom_id: 4 }` for the sentinel identifier. An
    /// identifier that is already present leaves the graph unchanged.
    pub fn register_node(&mut self, id: NodeId, level: usize) -> (r: Result<(), GenesisError>)
        requires
            old(self).wf(),
            level < MAX_LAYERS,
        ensures
            final(self).wf(),
            old(self).phase() == GraphState::Compacted ==> r == Err::<(), GenesisError>(
                GenesisError::InvariantViolation { axiom_id: 13 },
            ) && *final(self) == *old(self),
            old(self).phase() == GraphState::Online && id.raw() == u64::MAX ==> r == Err::<
                (),
                GenesisError,
            >(GenesisError::InvariantViolation { axiom_id: 4 }) && *final(self) == *old(self),
            old(self).phase() == GraphState::Online && id.raw() != u64::MAX && old(self).slot_of(id)
                is Some ==> r is Ok && *final(self) == *old(self),
            old(self).phase() == GraphState::Online && id.raw() != u64::MAX && old(self).slot_of(id)
                is None && old(self).slots().len() >= slot_limit() ==> r == Err::<
                (),
                GenesisError,
            >(GenesisError::InvariantViolation { axiom_id: 13 }) && *final(self) == *old(self),
            old(self).phase() == GraphState::Online && id.raw() != u64::MAX && old(self).slot_of(id)
                is None && old(self).slots().len() < slot_limit() ==> {
                &&& r is Ok
                &&& final(self).slots() == old(self).slots().push(HnswNode { id, max_layer: level })
                &&& final(self).adjacency().len() == old(self).adjacency().len() + 1
                &&& forall|i: int|
                    0 <= i < old(self).adjacency().len() ==> #[trigger] final(self).adjacency()[i]
                        == old(self).adjacency()[i]
                &&& forall|l: int|
                    #[trigger] final(self).nbrs(old(self).slots().len() as int, l) == Seq::<u32>::empty()
                &&& final(self).phase() == GraphState::Online
                &&& final(self).slot_of(id) == Some(old(self).slots().len() as usize)
                &&& forall|other: NodeId| other != id ==> #[trigger] final(self).slot_of(other) == old(
                    self,
                ).slot_of(other)
                &&& final(self).entry_point() == match old(self).entry_point() {
                    None => Some((old(self).slots().len() as usize, level)),
                    Some((e, l)) => if level > l {
                        Some((old(self).slots().len() as usize, level))
                    } else {
                        Some((e, l))
                    },
                }
            },
    {
        if self.state == GraphState::Compacted {
            return Err(GenesisError::InvariantViolation { axiom_id: 13 });
        }
        if id.get() == u64::MAX {
            return Err(GenesisError::InvariantViolation { axiom_id: 4 });
        }
        if self.idx(id).is_some() {
            return Ok(());
        }
        let new_idx = self.nodes.len();
        let limit: usize = if usize::MAX / 64 < 0xffff_fffe {
            usize::MAX / 64
        } else {
            0xffff_fffe
        };
        if new_idx >= limit {
            return Err(GenesisError::InvariantViolation { axiom_id: 13 });
        }
        let ghost old_self = *self;
        let ghost n = new_idx as int;
        let raw = id.get();
        self.nodes.push(HnswNode { id, max_layer: level });
        self.layer_neighbors.push(NodeAdj::default());
        match try_compact_node_id(id) {
            Some(compact) => {
                self.id_index.push((compact, new_idx));
            },
            None => {
                self.wide_id_index.push(WideEntry { id, slot: new_idx });
            },
        }
        proof {
            lemma_live_count_bound(old_self.slots());
        }
        self.live_nodes = self.live_nodes + 1;
        if raw < 0xffff_ffffu64 {
            let id_raw = raw as usize;
            let mut di: Vec<u32> = Vec::new();
            std::mem::swap(&mut di, &mut self.direct_index);
            let ghost d0 = di@;
            assert(d0.len() <= 0xffff_ffff);
            while di.len() <= id_raw
                invariant
                    forall|r: int| d0.len() <= r < di@.len() ==> #[trigger] di@[r] == u32::MAX,
                    forall|r: int| 0 <= r < d0.len() ==> #[trigger] di@[r] == d0[r],
                    di@.len() >= d0.len(),
                    di@.len() <= 0xffff_ffff,
                    id_raw < 0xffff_ffff,
                decreases id_raw + 1 - di@.len(),
            {
                di.push(u32::MAX);
            }
            di.set(id_raw, new_idx as u32);
            std::mem::swap(&mut di, &mut self.direct_index);
        }
        match self.entry {
            None => {
                self.entry = Some(new_idx);
                self.entry_layer = level;
            },
            Some(_) => {
                if level > self.entry_layer {
                    self.entry = Some(new_idx);
                    self.entry_layer = level;
                }
            },
        }
        proof {
            let s0 = old_self.slots();
            let s1 = self.slots();
            assert(s1 =~= s0.push(HnswNode { id, max_layer: level }));
            let a0 = old_self.adjacency();
            let a1 = self.adjacency();
            assert(a1.len() == a0.len() + 1);
            assert forall|i: int| 0 <= i < a0.len() implies #[trigger] a1[i] == a0[i] by {}
            assert forall|i: int| 0 <= i < s0.len() implies #[trigger] s1[i] == s0[i] by {}
            assert(a1 =~= a0.push(a1[n]));
            lemma_degree_sum_push(a0, a1[n]);
            lemma_live_count_push(s0, HnswNode { id, max_layer: level });
            assert(forall|l: int| #[trigger] a1[n].neighbors(l) == Seq::<u32>::empty());
            assert forall|i: int, l: int| 0 <= i < s1.len() implies #[trigger] self.nbrs(i, l) == (if i
                < n {
                old_self.nbrs(i, l)
            } else {
                Seq::<u32>::empty()
            }) by {
                if i == n {
                    assert(a1[n].neighbors(l) == Seq::<u32>::empty());
                }
            }
            assert forall|i: int, l: int, k: int|
                0 <= i < s1.len() && 0 <= k < self.nbrs(i, l).len() implies #[trigger] self.nbrs(i, l)[k]
                < s1.len() && self.nbrs(i, l)[k] != i by {
                assert(self.nbrs(i, l) == old_self.nbrs(i, l));
            }
            assert forall|i: int| 0 <= i < s1.len() implies self.nbrs(i, 0).len() <= M0 by {
                assert(self.nbrs(i, 0) == (if i < n { old_self.nbrs(i, 0) } else { Seq::<u32>::empty() }));
            }
            assert forall|i: int, k: int|
                0 <= i < s1.len() && 0 <= k < a1[i].layer0_entries().len() implies (#[trigger] a1[i].layer0_entries()[k]).1
                == a1[i].layer0_entries()[k].0 by {
                if i == n {
                    assert(a1[n].layer0_entries() == Seq::<(u32, u32)>::empty());
                }
            }
            // identifier index
            assert forall|i: int| !old_self.holds(id, i) by {
                assert(!holds_in(old_self.slots(), id, i));
            }
            assert forall|i: int| 0 <= i < n && old_self.is_live(i) implies s0[i].id.raw() != raw by {
                NodeId::lemma_raw_injective(id, s0[i].id);
                assert(!old_self.holds(id, i));
            }
            assert forall|i: int, j: int|
                self.is_live(i) && self.is_live(j) && s1[i].id == s1[j].id implies i == j by {
                if i < n && j < n {
                } else if i < n {
                    NodeId::lemma_raw_injective(id, s1[i].id);
                } else if j < n {
                    NodeId::lemma_raw_injective(id, s1[j].id);
                }
            }
            let ci0 = old_self.id_index@;
            let ci1 = self.id_index@;
            let wi0 = old_self.wide_id_index@;
            let wi1 = self.wide_id_index@;
            assert forall|k: int| 0 <= k < ci1.len() implies self.is_live((#[trigger] ci1[k]).1 as int)
                && s1[ci1[k].1 as int].id.raw() == ci1[k].0.value() by {
                if k < ci0.len() {
                    assert(ci1[k] == ci0[k]);
                }
            }
            assert forall|k1: int, k2: int| 0 <= k1 < k2 < ci1.len() implies (#[trigger] ci1[k1]).0
                != (#[trigger] ci1[k2]).0 by {
                if k2 >= ci0.len() {
                    assert(ci1[k1] == ci0[k1]);
                    assert(old_self.is_live(ci0[k1].1 as int));
                } else {
                    assert(ci1[k1] == ci0[k1] && ci1[k2] == ci0[k2]);
                }
            }
            assert forall|i: int|
                #![trigger s1[i]]
                self.is_live(i) && s1[i].id.raw() <= u32::MAX implies exists|k: int|
                0 <= k < ci1.len() && (#[trigger] ci1[k]).1 == i by {
                if i < n {
                    assert(s1[i] == s0[i]);
                    assert(old_self.is_live(i));
                    let k = choose|k: int| 0 <= k < ci0.len() && (#[trigger] ci0[k]).1 == i;
                    assert(ci1[k] == ci0[k]);
                } else {
                    assert(ci1[ci0.len() as int].1 == i);
                }
            }
            assert forall|k: int| 0 <= k < wi1.len() implies self.is_live((#[trigger] wi1[k]).slot as int)
                && s1[wi1[k].slot as int].id == wi1[k].id && wi1[k].id.raw() > u32::MAX by {
                if k < wi0.len() {
                    assert(wi1[k] == wi0[k]);
                }
            }
            assert forall|k1: int, k2: int| 0 <= k1 < k2 < wi1.len() implies (#[trigger] wi1[k1]).id
                != (#[trigger] wi1[k2]).id by {
                if k2 >= wi0.len() {
                    assert(wi1[k1] == wi0[k1]);
                    assert(old_self.is_live(wi0[k1].slot as int));
                    NodeId::lemma_raw_injective(id, wi0[k1].id);
                } else {
                    assert(wi1[k1] == wi0[k1] && wi1[k2] == wi0[k2]);
                }
            }
            assert forall|i: int|
                #![trigger s1[i]]
                self.is_live(i) && s1[i].id.raw() > u32::MAX implies exists|k: int|
                0 <= k < wi1.len() && (#[trigger] wi1[k]).slot == i by {
                if i < n {
                    assert(s1[i] == s0[i]);
                    assert(old_self.is_live(i));
                    let k = choose|k: int| 0 <= k < wi0.len() && (#[trigger] wi0[k]).slot == i;
                    assert(wi1[k] == wi0[k]);
                } else {
                    assert(wi1[wi0.len() as int].slot == i);
                }
            }
            let di0 = old_self.direct_index@;
            let di1 = self.direct_index@;
            assert forall|r: int|
                0 <= r < di1.len() && #[trigger] di1[r] != u32::MAX implies self.is_live(di1[r] as int)
                && s1[di1[r] as int].id.raw() == r by {
                if r != raw {
                    assert(r < di0.len());
                    assert(di1[r] == di0[r]);
                    assert(s1[di0[r] as int] == s0[di0[r] as int]);
                }
            }
            assert(self.wf());
            self.lemma_slot_of(id, n);
            assert forall|other: NodeId| other != id implies #[trigger] self.slot_of(other) == old_self.slot_of(
                other,
            ) by {
                assert forall|i: int| holds_in(s1, other, i) == holds_in(s0, other, i) by {
                    if 0 <= i < n {
                        assert(s1[i] == s0[i]);
                    }
                }
                self.lemma_slot_of_same(old_self, other);
            }
        }
        Ok(())
    }
}

proof fn lemma_wf_ids_frame(a: HnswGraph, b: HnswGraph)
    requires
        a.wf_ids(),
        a.nodes@ == b.nodes@,
        a.id_index@ == b.id_index@,
        a.wide_id_index@ == b.wide_id_index@,
        a.direct_index@ == b.direct_index@,
        a.state == b.state,
    ensures
        b.wf_ids(),
{
    assert(a.slots() == b.slots());
}

proof fn lemma_degree_sum_update(adj: Seq<NodeAdj>, i: int, a: NodeAdj)
    requires
        0 <= i < adj.len(),
    ensures
        degree_sum(adj.update(i, a)) + adj[i].neighbors(0).len() == degree_sum(adj) + a.neighbors(0).len(),
    decreases adj.len(),
{
    let u = adj.update(i, a);
    if i == adj.len() - 1 {
        assert(u.drop_last() =~= adj.drop_last());
    } else {
        assert(u.drop_last() =~= adj.drop_last().update(i, a));
        lemma_degree_sum_update(adj.drop_last(), i, a);
    }
}

proof fn lemma_degree_sum_bound(adj: Seq<NodeAdj>)
    requires
        forall|i: int| 0 <= i < adj.len() ==> (#[trigger] adj[i]).neighbors(0).len() <= M0,
    ensures
        degree_sum(adj) <= M0 * adj.len(),
    decreases adj.len(),
{
    if adj.len() > 0 {
        let d = adj.drop_last();
        assert forall|i: int| 0 <= i < d.len() implies (#[trigger] d[i]).neighbors(0).len() <= M0 by {
            assert(d[i] == adj[i]);
        }
        lemma_degree_sum_bound(d);
    }
}

impl HnswGraph {
    /// The layer-0 edge counter can take one more edge.
    proof fn lemma_edge_room(self)
        requires
            self.wf(),
        ensures
            degree_sum(self.adjacency()) + 1 < usize::MAX,
    {
        let adj = self.adjacency();
        assert forall|i: int| 0 <= i < adj.len() implies (#[trigger] adj[i]).neighbors(0).len() <= M0 by {
            assert(self.nbrs(i, 0).len() <= M0);
        }
        lemma_degree_sum_bound(adj);
    }

    /// Adds the directed edge `from_idx -> to_idx` at a layer, between two
    /// distinct live nodes; nothing happens above the source's highest
    /// layer, when the edge exists, or when the source's list at that layer
    /// is full (`M0` neighbours on layer 0, `M` above). A new layer-0 edge
    /// is counted.
    pub fn add_edge(&mut self, from_idx: usize, layer: usize, to_idx: usize)
        requires
            old(self).wf(),
            old(self).is_live(from_idx as int),
            old(self).is_live(to_idx as int),
            from_idx != to_idx,
        ensures
            final(self).wf(),
            final(self).slots() == old(self).slots(),
            final(self).entry_point() == old(self).entry_point(),
            final(self).phase() == old(self).phase(),
            forall|id: NodeId| #[trigger] final(self).slot_of(id) == old(self).slot_of(id),
            forall|i: int, l: int|
                0 <= i < old(self).slots().len() && (i != from_idx || l != layer) ==> #[trigger] final(self).nbrs(i, l)
                    == old(self).nbrs(i, l),
            ({
                let before = old(self).nbrs(from_idx as int, layer as int);
                let added = layer <= old(self).slots()[from_idx as int].max_layer && !before.contains(
                    to_idx as u32,
                ) && before.len() < layer_budget(layer);
                final(self).nbrs(from_idx as int, layer as int) == if added {
                    before.insert(rank(before, to_idx as u32) as int, to_idx as u32)
                } else {
                    before
                }
            }),
    {
        if layer > self.nodes[from_idx].max_layer {
            return;
        }
        let max_neighbors = layer_max_neighbors(layer);
        let ghost old_self = *self;
        let ghost a0 = self.layer_neighbors@[from_idx as int];
        proof {
            self.lemma_edge_room();
            if layer == 0 {
                assert forall|i: int|
                    0 <= i < a0.slabs().len() && a0.slabs()[i] == to_idx as u32 implies a0.neighbors(
                    0,
                )[i] == to_idx as u32 by {
                    assert(a0.layer0_entries()[i].1 == a0.layer0_entries()[i].0);
                }
            }
        }
        let added = self.layer_neighbors[from_idx].add_neighbor(
            layer,
            to_idx as u32,
            to_idx as u32,
            max_neighbors,
        );
        if added && layer == 0 {
            self.edge_count_layer0_undirected = self.edge_count_layer0_undirected + 1;
        }
        proof {
            let adj0 = old_self.adjacency();
            let adj1 = self.adjacency();
            let a1 = adj1[from_idx as int];
            assert(adj1 == adj0.update(from_idx as int, a1));
            lemma_degree_sum_update(adj0, from_idx as int, a1);
            assert(self.slots() == old_self.slots());
            let n = adj0.len() as int;
            lemma_rank_bound(a0.neighbors(layer as int), to_idx as u32);
            assert(self.nodes == old_self.nodes && self.id_index == old_self.id_index
                && self.wide_id_index == old_self.wide_id_index && self.direct_index
                == old_self.direct_index && self.state == old_self.state);
            lemma_wf_ids_frame(old_self, *self);
            if layer == 0 && added {
                assert(a1.neighbors(0).len() == a0.neighbors(0).len() + 1);
            } else {
                assert(a1.neighbors(0) == a0.neighbors(0));
            }
            let before = old_self.nbrs(from_idx as int, layer as int);
            assert(before == a0.neighbors(layer as int));
            assert(self.nbrs(from_idx as int, layer as int) == if added {
                before.insert(rank(before, to_idx as u32) as int, to_idx as u32)
            } else {
                before
            });
            assert forall|i: int, l: int|
                0 <= i < n && (i != from_idx || l != layer) implies #[trigger] self.nbrs(i, l) == old_self.nbrs(i, l) by {
                if i == from_idx {
                    assert(a1.neighbors(l) == a0.neighbors(l));
                } else if 0 <= i < n {
                    assert(adj1[i] == adj0[i]);
                }
            }
            assert forall|i: int, l: int, k: int|
                0 <= i < n && 0 <= k < self.nbrs(i, l).len() implies #[trigger] self.nbrs(i, l)[k] < n
                && self.nbrs(i, l)[k] != i by {
                if i == from_idx && l == layer && added {
                    let b = a0.neighbors(layer as int);
                    let p = rank(b, to_idx as u32) as int;
                    if k < p {
                        assert(self.nbrs(i, l)[k] == b[k]);
                    } else if k > p {
                        assert(self.nbrs(i, l)[k] == b[k - 1]);
                    }
                } else {
                    assert(self.nbrs(i, l) == old_self.nbrs(i, l));
                }
            }
            assert forall|i: int, k: int|
                0 <= i < n && 0 <= k < adj1[i].layer0_entries().len() implies (#[trigger] adj1[i].layer0_entries()[k]).1
                == adj1[i].layer0_entries()[k].0 by {
                if i == from_idx && layer == 0 && added {
                    let e = a0.layer0_entries();
                    let p = rank(a0.neighbors(0), to_idx as u32) as int;
                    if k < p {
                        assert(a1.layer0_entries()[k] == e[k]);
                    } else if k > p {
                        assert(a1.layer0_entries()[k] == e[k - 1]);
                    }
                }
            }
            assert forall|i: int, l: int|
                0 <= i < n && (l < 0 || l > self.slots()[i].max_layer) implies #[trigger] self.nbrs(i, l)
                == Seq::<u32>::empty() by {
                assert(self.nbrs(i, l) == old_self.nbrs(i, l));
            }
            assert forall|i: int, l: int| 0 <= i < n && l != 0 implies #[trigger] self.nbrs(i, l).len() <= M by {
                assert(self.nbrs(i, l).len() <= old_self.nbrs(i, l).len() + 1);
            }
            assert forall|i: int| 0 <= i < n implies self.nbrs(i, 0).len() <= M0 by {
                assert(self.nbrs(i, 0).len() <= old_self.nbrs(i, 0).len() + 1);
            }
            assert forall|i: int| 0 <= i < n implies (#[trigger] adj1[i]).wf() by {
                if i != from_idx {
                    assert(adj1[i] == adj0[i]);
                }
            }

        }
    }
}

impl HnswGraph {
    /// Removes the directed edge `from_idx -> to_idx` at a layer, if the
    /// layer is within the source's reach and the edge is there; returns
    /// whether it was. A removed layer-0 edge is uncounted.
    pub fn remove_edge(&mut self, from_idx: usize, layer: usize, to_idx: usize) -> (removed: bool)
        requires
            old(self).wf(),
            from_idx < old(self).slots().len(),
            to_idx < old(self).slots().len(),
        ensures
            final(self).wf(),
            final(self).slots() == old(self).slots(),
            final(self).entry_point() == old(self).entry_point(),
            final(self).phase() == old(self).phase(),
            forall|i: int, l: int|
                0 <= i < old(self).slots().len() && (i != from_idx || l != layer) ==> #[trigger] final(self).nbrs(i, l)
                    == old(self).nbrs(i, l),
            removed == (layer <= old(self).slots()[from_idx as int].max_layer && old(self).nbrs(
                from_idx as int,
                layer as int,
            ).contains(to_idx as u32)),
            ({
                let before = old(self).nbrs(from_idx as int, layer as int);
                final(self).nbrs(from_idx as int, layer as int) == if removed {
                    before.remove(rank(before, to_idx as u32) as int)
                } else {
                    before
                }
            }),
            final(self).nbrs(from_idx as int, layer as int) == without(
                old(self).nbrs(from_idx as int, layer as int),
                to_idx as u32,
            ),
    {
        if layer > self.nodes[from_idx].max_layer {
            proof {
                assert(self.nbrs(from_idx as int, layer as int) == Seq::<u32>::empty());
            }
            return false;
        }
        let ghost old_self = *self;
        let ghost a0 = self.layer_neighbors@[from_idx as int];
        let removed = self.layer_neighbors[from_idx].remove_neighbor(layer, to_idx as u32);
        let ghost mid = *self;
        proof {
            let adj0 = old_self.adjacency();
            let a1 = self.adjacency()[from_idx as int];
            lemma_degree_sum_update(adj0, from_idx as int, a1);
            if layer == 0 && removed {
                lemma_rank_member(a0.neighbors(0), to_idx as u32);
                assert(a1.neighbors(0).len() + 1 == a0.neighbors(0).len());
            }
        }
        if removed && layer == 0 {
            self.edge_count_layer0_undirected = self.edge_count_layer0_undirected.saturating_sub(1);
        }
        proof {
            let adj0 = old_self.adjacency();
            let adj1 = self.adjacency();
            let a1 = adj1[from_idx as int];
            assert(adj1 == adj0.update(from_idx as int, a1));
            let n = adj0.len() as int;
            if removed {
                lemma_rank_member(a0.neighbors(layer as int), to_idx as u32);
            }
            assert(self.nodes == old_self.nodes && self.id_index == old_self.id_index
                && self.wide_id_index == old_self.wide_id_index && self.direct_index
                == old_self.direct_index && self.state == old_self.state);
            lemma_wf_ids_frame(old_self, *self);
            if !(layer == 0 && removed) {
                assert(a1.neighbors(0) == a0.neighbors(0));
            }
            assert forall|i: int, l: int|
                0 <= i < n && (i != from_idx || l != layer) implies #[trigger] self.nbrs(i, l) == old_self.nbrs(i, l) by {
                if i == from_idx {
                    assert(a1.neighbors(l) == a0.neighbors(l));
                } else {
                    assert(adj1[i] == adj0[i]);
                }
            }
            assert forall|i: int, l: int, k: int|
                0 <= i < n && 0 <= k < self.nbrs(i, l).len() implies #[trigger] self.nbrs(i, l)[k] < n
                && self.nbrs(i, l)[k] != i by {
                if i == from_idx && l == layer && removed {
                    let b = a0.neighbors(layer as int);
                    let p = rank(b, to_idx as u32) as int;
                    if k < p {
                        assert(self.nbrs(i, l)[k] == b[k]);
                    } else {
                        assert(self.nbrs(i, l)[k] == b[k + 1]);
                    }
                } else {
                    assert(self.nbrs(i, l) == old_self.nbrs(i, l));
                }
            }
            assert forall|i: int, k: int|
                0 <= i < n && 0 <= k < adj1[i].layer0_entries().len() implies (#[trigger] adj1[i].layer0_entries()[k]).1
                == adj1[i].layer0_entries()[k].0 by {
                if i == from_idx && layer == 0 && removed {
                    let e = a0.layer0_entries();
                    let p = rank(a0.neighbors(0), to_idx as u32) as int;
                    if k < p {
                        assert(a1.layer0_entries()[k] == e[k]);
                    } else {
                        assert(a1.layer0_entries()[k] == e[k + 1]);
                    }
                }
            }
            assert forall|i: int, l: int|
                0 <= i < n && (l < 0 || l > self.slots()[i].max_layer) implies #[trigger] self.nbrs(i, l)
                == Seq::<u32>::empty() by {
                assert(self.nbrs(i, l) == old_self.nbrs(i, l));
            }
            assert forall|i: int, l: int| 0 <= i < n && !self.is_live(i) implies #[trigger] self.nbrs(i, l)
                == Seq::<u32>::empty() by {
                if i == from_idx && l == layer {
                    assert(old_self.nbrs(i, l) == Seq::<u32>::empty());
                } else {
                    assert(self.nbrs(i, l) == old_self.nbrs(i, l));
                }
            }
            assert forall|i: int, l: int| 0 <= i < n && l != 0 implies #[trigger] self.nbrs(i, l).len() <= M by {
                assert(self.nbrs(i, l).len() <= old_self.nbrs(i, l).len());
            }
            assert forall|i: int| 0 <= i < n implies self.nbrs(i, 0).len() <= M0 by {
                assert(self.nbrs(i, 0).len() <= old_self.nbrs(i, 0).len());
            }
            assert forall|i: int| 0 <= i < n implies (#[trigger] adj1[i]).wf() by {
                if i != from_idx {
                    assert(adj1[i] == adj0[i]);
                }
            }
        }
        removed
    }

    /// Removes the edge between two slots at a layer in both directions;
    /// returns how many directed edges went.
    pub fn remove_edge_bidirectional(&mut self, from_idx: usize, layer: usize, to_idx: usize) -> (removed: usize)
        requires
            old(self).wf(),
            from_idx < old(self).slots().len(),
            to_idx < old(self).slots().len(),
        ensures
            final(self).wf(),
            final(self).slots() == old(self).slots(),
            final(self).entry_point() == old(self).entry_point(),
            final(self).phase() == old(self).phase(),
            removed <= 2,
            forall|i: int, l: int|
                0 <= i < old(self).slots().len() && (i != from_idx && i != to_idx || l != layer) ==> #[trigger] final(self).nbrs(
                    i,
                    l,
                ) == old(self).nbrs(i, l),
            from_idx != to_idx ==> final(self).nbrs(from_idx as int, layer as int) == without(
                old(self).nbrs(from_idx as int, layer as int),
                to_idx as u32,
            ),
            from_idx != to_idx ==> final(self).nbrs(to_idx as int, layer as int) == without(
                old(self).nbrs(to_idx as int, layer as int),
                from_idx as u32,
            ),
    {
        let mut removed: usize = 0;
        if self.remove_edge(from_idx, layer, to_idx) {
            removed += 1;
        }
        if self.remove_edge(to_idx, layer, from_idx) {
            removed += 1;
        }
        removed
    }
}

impl HnswGraph {
    /// Removes, for every neighbour `nb` of slot `idx` at every layer the
    /// node reaches, the edge `nb -> idx` at that layer.
    fn drop_reverse_edges(&mut self, idx: usize)
        requires
            old(self).wf(),
            idx < old(self).slots().len(),
        ensures
            final(self).wf(),
            final(self).slots() == old(self).slots(),
            final(self).entry_point() == old(self).entry_point(),
            final(self).phase() == old(self).phase(),
            forall|l: int| #[trigger] final(self).nbrs(idx as int, l) == old(self).nbrs(idx as int, l),
            forall|j: int, l: int|
                0 <= j < old(self).slots().len() && j != idx ==> #[trigger] final(self).nbrs(j, l) == if old(
                    self,
                ).nbrs(idx as int, l).contains(j as u32) {
                    without(old(self).nbrs(j, l), idx as u32)
                } else {
                    old(self).nbrs(j, l)
                },
    {
        let ghost g0 = *self;
        let ghost n = g0.slots().len() as int;
        let max_layer = self.nodes[idx].max_layer;
        let mut layer: usize = 0;
        while layer <= max_layer
            invariant
                self.wf(),
                self.slots() == g0.slots(),
                self.entry_point() == g0.entry_point(),
                self.phase() == g0.phase(),
                n == g0.slots().len(),
                idx < n,
                g0.wf(),
                max_layer == g0.slots()[idx as int].max_layer,
                max_layer < MAX_LAYERS,
                layer <= max_layer + 1,
                forall|l: int| #[trigger] self.nbrs(idx as int, l) == g0.nbrs(idx as int, l),
                forall|j: int, l: int|
                    0 <= j < n && j != idx ==> #[trigger] self.nbrs(j, l) == if l < layer && g0.nbrs(
                        idx as int,
                        l,
                    ).contains(j as u32) {
                        without(g0.nbrs(j, l), idx as u32)
                    } else {
                        g0.nbrs(j, l)
                    },
            decreases max_layer + 1 - layer,
        {
            let len = self.layer_neighbors[idx].neighbors_len(layer);
            let ghost own = g0.nbrs(idx as int, layer as int);
            assert(self.nbrs(idx as int, layer as int) == own);
            let mut pos: usize = 0;
            while pos < len
                invariant
                    self.wf(),
                    self.slots() == g0.slots(),
                    self.entry_point() == g0.entry_point(),
                    self.phase() == g0.phase(),
                    n == g0.slots().len(),
                    idx < n,
                    g0.wf(),
                    max_layer == g0.slots()[idx as int].max_layer,
                    max_layer < MAX_LAYERS,
                    layer <= max_layer,
                    own == g0.nbrs(idx as int, layer as int),
                    len == own.len(),
                    pos <= len,
                    forall|l: int| #[trigger] self.nbrs(idx as int, l) == g0.nbrs(idx as int, l),
                    forall|j: int, l: int|
                        0 <= j < n && j != idx ==> #[trigger] self.nbrs(j, l) == if (l < layer && g0.nbrs(
                            idx as int,
                            l,
                        ).contains(j as u32)) || (l == layer && own.take(pos as int).contains(
                            j as u32,
                        )) {
                            without(g0.nbrs(j, l), idx as u32)
                        } else {
                            g0.nbrs(j, l)
                        },
                decreases len - pos,
            {
                let nb_opt = self.layer_neighbors[idx].neighbor_at(layer, pos);
                proof {
                    assert(self.nbrs(idx as int, layer as int) == own);
                }
                if let Some(nb) = nb_opt {
                    let ghost cur = *self;
                    proof {
                        assert(nb == own[pos as int]);
                        assert(g0.nbrs(idx as int, layer as int)[pos as int] < n);
                        assert((nb as int) != (idx as int));
                        assert(strictly_ascending(own)) by {
                            assert(g0.adjacency()[idx as int].wf());
                        }
                        assert(!own.take(pos as int).contains(nb)) by {
                            if own.take(pos as int).contains(nb) {
                                let q = choose|q: int| 0 <= q < pos && #[trigger] own.take(pos as int)[q] == nb;
                                assert(own[q] < own[pos as int]);
                            }
                        }
                        assert(cur.nbrs(nb as int, layer as int) == g0.nbrs(nb as int, layer as int));
                    }
                    self.remove_edge(nb as usize, layer, idx);
                    proof {
                        let before = cur.nbrs(nb as int, layer as int);
                        if before.contains(idx as u32) && layer > cur.slots()[nb as int].max_layer {
                            assert(before == Seq::<u32>::empty());
                        }
                        assert(self.nbrs(nb as int, layer as int) == without(before, idx as u32));
                        assert(own.take(pos as int + 1) =~= own.take(pos as int).push(nb));
                        assert forall|j: int, l: int| 0 <= j < n && j != idx implies #[trigger] self.nbrs(j, l)
                            == if (l < layer && g0.nbrs(idx as int, l).contains(j as u32)) || (l == layer
                            && own.take(pos as int + 1).contains(j as u32)) {
                            without(g0.nbrs(j, l), idx as u32)
                        } else {
                            g0.nbrs(j, l)
                        } by {
                            if j == nb && l == layer {
                                assert(own.take(pos as int + 1)[pos as int] == nb);
                            } else {
                                assert(self.nbrs(j, l) == cur.nbrs(j, l));
                                if l == layer && j != nb {
                                    assert(own.take(pos as int + 1).contains(j as u32) == own.take(
                                        pos as int,
                                    ).contains(j as u32)) by {
                                        if own.take(pos as int + 1).contains(j as u32) {
                                            let q = choose|q: int|
                                                0 <= q < pos + 1 && #[trigger] own.take(pos as int + 1)[q]
                                                    == j as u32;
                                            assert(q < pos);
                                            assert(own.take(pos as int)[q] == j as u32);
                                        }
                                    }
                                }
                            }
                        }
                        assert forall|l: int| #[trigger] self.nbrs(idx as int, l) == g0.nbrs(idx as int, l) by {
                            assert(self.nbrs(idx as int, l) == cur.nbrs(idx as int, l));
                        }
                    }
                }
                pos += 1;
            }
            proof {
                assert(own.take(len as int) =~= own);
            }
            layer += 1;
        }
        proof {
            assert forall|j: int, l: int| 0 <= j < n && j != idx implies #[trigger] self.nbrs(j, l) == if g0.nbrs(
                idx as int,
                l,
            ).contains(j as u32) {
                without(g0.nbrs(j, l), idx as u32)
            } else {
                g0.nbrs(j, l)
            } by {
                if l > max_layer || l < 0 {
                    assert(g0.nbrs(idx as int, l) == Seq::<u32>::empty());
                }
            }
        }
    }
}

impl HnswGraph {
    /// Empties every layer of slot `idx` up to its highest and uncounts its
    /// layer-0 edges.
    fn clear_node(&mut self, idx: usize)
        requires
            old(self).wf(),
            idx < old(self).slots().len(),
        ensures
            final(self).wf(),
            final(self).slots() == old(self).slots(),
            final(self).entry_point() == old(self).entry_point(),
            final(self).phase() == old(self).phase(),
            final(self).nodes == old(self).nodes,
            final(self).id_index == old(self).id_index,
            final(self).wide_id_index == old(self).wide_id_index,
            final(self).direct_index == old(self).direct_index,
            final(self).live_nodes == old(self).live_nodes,
            forall|l: int| #[trigger] final(self).nbrs(idx as int, l) == Seq::<u32>::empty(),
            forall|j: int, l: int|
                0 <= j < old(self).slots().len() && j != idx ==> #[trigger] final(self).nbrs(j, l)
                    == old(self).nbrs(j, l),
    {
        let ghost g0 = *self;
        let ghost n = g0.slots().len() as int;
        let outgoing = self.layer_neighbors[idx].neighbors_len(0);
        let max_layer = self.nodes[idx].max_layer;
        proof {
            assert(g0.nbrs(idx as int, 0) == g0.adjacency()[idx as int].neighbors(0));
        }
        let mut layer: usize = 0;
        while layer <= max_layer
            invariant
                g0.wf(),
                n == g0.slots().len(),
                idx < n,
                max_layer == g0.slots()[idx as int].max_layer,
                max_layer < MAX_LAYERS,
                layer <= max_layer + 1,
                outgoing == g0.nbrs(idx as int, 0).len(),
                self.nodes == g0.nodes,
                self.id_index == g0.id_index,
                self.wide_id_index == g0.wide_id_index,
                self.direct_index == g0.direct_index,
                self.state == g0.state,
                self.entry == g0.entry,
                self.entry_layer == g0.entry_layer,
                self.live_nodes == g0.live_nodes,
                self.edge_count_layer0_undirected == g0.edge_count_layer0_undirected,
                self.adjacency().len() == n,
                forall|i: int| 0 <= i < n && i != idx ==> #[trigger] self.adjacency()[i] == g0.adjacency()[i],
                self.adjacency()[idx as int].wf(),
                forall|l: int| #[trigger] self.nbrs(idx as int, l) == if 0 <= l < layer {
                    Seq::<u32>::empty()
                } else {
                    g0.nbrs(idx as int, l)
                },
                degree_sum(self.adjacency()) + (if layer > 0 {
                    outgoing as int
                } else {
                    0int
                }) == degree_sum(g0.adjacency()),
            decreases max_layer + 1 - layer,
        {
            let ghost pre = *self;
            let ghost before = self.adjacency();
            self.layer_neighbors[idx].clear_layer(layer);
            proof {
                let a1 = self.adjacency()[idx as int];
                assert(self.adjacency() == before.update(idx as int, a1));
                lemma_degree_sum_update(before, idx as int, a1);
                assert(pre.nbrs(idx as int, 0) == before[idx as int].neighbors(0));
                if layer > 0 {
                    assert(a1.neighbors(0) == before[idx as int].neighbors(0));
                } else {
                    assert(pre.nbrs(idx as int, 0) == g0.nbrs(idx as int, 0));
                }
                assert forall|l: int| #[trigger] self.nbrs(idx as int, l) == if 0 <= l < layer + 1 {
                    Seq::<u32>::empty()
                } else {
                    g0.nbrs(idx as int, l)
                } by {
                    assert(pre.nbrs(idx as int, l) == before[idx as int].neighbors(l));
                    if l != layer {
                        assert(a1.neighbors(l) == before[idx as int].neighbors(l));
                    }
                }
            }
            layer += 1;
        }
        let ghost after_loop = *self;
        self.edge_count_layer0_undirected = self.edge_count_layer0_undirected.saturating_sub(outgoing);
        proof {
            assert(self.adjacency() == after_loop.adjacency());
            lemma_wf_ids_frame(g0, *self);
            assert(self.slots() == g0.slots());
            assert forall|l: int| #[trigger] self.nbrs(idx as int, l) == Seq::<u32>::empty() by {
                assert(after_loop.nbrs(idx as int, l) == if 0 <= l < layer {
                    Seq::<u32>::empty()
                } else {
                    g0.nbrs(idx as int, l)
                });
                if l < 0 || l > max_layer {
                    assert(g0.nbrs(idx as int, l) == Seq::<u32>::empty());
                }
            }
            assert forall|j: int, l: int| 0 <= j < n && j != idx implies #[trigger] self.nbrs(j, l) == g0.nbrs(j, l) by {
                assert(self.adjacency()[j] == g0.adjacency()[j]);
            }
            assert forall|i: int| 0 <= i < n implies (#[trigger] self.adjacency()[i]).wf() by {
                if i != idx {
                    assert(self.adjacency()[i] == g0.adjacency()[i]);
                }
            }
            assert forall|i: int, l: int, k: int|
                0 <= i < n && 0 <= k < self.nbrs(i, l).len() implies #[trigger] self.nbrs(i, l)[k] < n
                && self.nbrs(i, l)[k] != i by {
                assert(i != idx);
                assert(self.nbrs(i, l) == g0.nbrs(i, l));
            }
            assert forall|i: int, k: int|
                0 <= i < n && 0 <= k < self.adjacency()[i].layer0_entries().len() implies (#[trigger] self.adjacency()[i].layer0_entries()[k]).1
                == self.adjacency()[i].layer0_entries()[k].0 by {
                if i == idx {
                    assert(self.nbrs(idx as int, 0) == Seq::<u32>::empty());
                    assert(self.adjacency()[i].layer0_entries().len() == self.nbrs(idx as int, 0).len());
                } else {
                    assert(self.adjacency()[i] == g0.adjacency()[i]);
                }
            }
            assert forall|i: int, l: int|
                0 <= i < n && (l < 0 || l > self.slots()[i].max_layer) implies #[trigger] self.nbrs(i, l)
                == Seq::<u32>::empty() by {
                if i != idx {
                    assert(self.nbrs(i, l) == g0.nbrs(i, l));
                }
            }
            assert forall|i: int, l: int| 0 <= i < n && !self.is_live(i) implies #[trigger] self.nbrs(i, l)
                == Seq::<u32>::empty() by {
                if i != idx {
                    assert(self.nbrs(i, l) == g0.nbrs(i, l));
                }
            }
            assert forall|i: int, l: int| 0 <= i < n && l != 0 implies #[trigger] self.nbrs(i, l).len() <= M by {
                if i != idx {
                    assert(self.nbrs(i, l) == g0.nbrs(i, l));
                }
            }
            assert forall|i: int| 0 <= i < n implies self.nbrs(i, 0).len() <= M0 by {
                if i != idx {
                    assert(self.nbrs(i, 0) == g0.nbrs(i, 0));
                }
            }
        }
    }
}

/// Among the live slots below `upto` other than `skip`, the last one of
/// the highest layer (ties go to the later slot), if any.
pub open spec fn last_highest(slots: Seq<HnswNode>, skip: int, upto: int) -> Option<int>
    decreases upto,
{
    if upto <= 0 {
        None
    } else {
        let prev = last_highest(slots, skip, upto - 1);
        let k = upto - 1;
        if k != skip && slots[k].id.raw() != u64::MAX {
            match prev {
                None => Some(k),
                Some(b) => if slots[k].max_layer >= slots[b].max_layer {
                    Some(k)
                } else {
                    prev
                },
            }
        } else {
            prev
        }
    }
}

proof fn lemma_last_highest(slots: Seq<HnswNode>, skip: int, upto: int)
    requires
        0 <= upto <= slots.len(),
    ensures
        last_highest(slots, skip, upto) is Some <==> exists|k: int|
            0 <= k < upto && k != skip && #[trigger] slots[k].id.raw() != u64::MAX,
        last_highest(slots, skip, upto) matches Some(b) ==> {
            &&& 0 <= b < upto
            &&& b != skip
            &&& slots[b].id.raw() != u64::MAX
            &&& forall|k: int|
                0 <= k < upto && k != skip && #[trigger] slots[k].id.raw() != u64::MAX ==> slots[k].max_layer
                    <= slots[b].max_layer
        },
    decreases upto,
{
    if upto > 0 {
        lemma_last_highest(slots, skip, upto - 1);
        let k = upto - 1;
        if last_highest(slots, skip, upto - 1) is None {
            assert forall|j: int| 0 <= j < upto - 1 && j != skip implies #[trigger] slots[j].id.raw() == u64::MAX by {
                if slots[j].id.raw() != u64::MAX {
                    assert(exists|q: int| 0 <= q < upto - 1 && q != skip && #[trigger] slots[q].id.raw() != u64::MAX);
                }
            }
        }
        if last_highest(slots, skip, upto) is Some {
            let b = last_highest(slots, skip, upto)->0;
            assert(0 <= b < upto && b != skip && slots[b].id.raw() != u64::MAX);
        }
    }
}

proof fn lemma_live_count_update(nodes: Seq<HnswNode>, i: int, x: HnswNode)
    requires
        0 <= i < nodes.len(),
    ensures
        live_count(nodes.update(i, x)) + (if nodes[i].id.raw() != u64::MAX {
            1int
        } else {
            0int
        }) == live_count(nodes) + (if x.id.raw() != u64::MAX {
            1int
        } else {
            0int
        }),
    decreases nodes.len(),
{
    let u = nodes.update(i, x);
    if i == nodes.len() - 1 {
        assert(u.drop_last() =~= nodes.drop_last());
    } else {
        assert(u.drop_last() =~= nodes.drop_last().update(i, x));
        lemma_live_count_update(nodes.drop_last(), i, x);
    }
}

impl HnswGraph {
    /// Removes a live node: drops the edges its neighbours hold back to it
    /// at the layers it reaches, empties its own lists, takes its
    /// identifier out of the index, moves the entry point when it was the
    /// entry (to the last live node of the highest layer), and leaves its
    /// slot as a removed node so that other indices stay valid. Edges that
    /// other nodes hold to it without being its neighbours stay in place.
    ///
    /// Fails with `InvariantViolation { axiom_id: 4 }` when `id` is not live
    /// in the graph.
    pub fn remove_node(&mut self, id: NodeId) -> (r: Result<(), GenesisError>)
        requires
            old(self).wf(),
        ensures
            final(self).wf(),
            old(self).slot_of(id) is None ==> r == Err::<(), GenesisError>(
                GenesisError::InvariantViolation { axiom_id: 4 },
            ) && *final(self) == *old(self),
            old(self).slot_of(id) matches Some(idx) ==> {
                &&& r is Ok
                &&& final(self).slots().len() == old(self).slots().len()
                &&& final(self).slots()[idx as int].id.raw() == u64::MAX
                &&& final(self).slots()[idx as int].max_layer == 0
                &&& forall|j: int|
                    0 <= j < old(self).slots().len() && j != idx ==> #[trigger] final(self).slots()[j]
                        == old(self).slots()[j]
                &&& forall|l: int| #[trigger] final(self).nbrs(idx as int, l) == Seq::<u32>::empty()
                &&& forall|j: int, l: int|
                    0 <= j < old(self).slots().len() && j != idx ==> #[trigger] final(self).nbrs(j, l)
                        == if old(self).nbrs(idx as int, l).contains(j as u32) {
                        without(old(self).nbrs(j, l), idx as u32)
                    } else {
                        old(self).nbrs(j, l)
                    }
                &&& final(self).phase() == old(self).phase()
                &&& final(self).slot_of(id) is None
                &&& forall|other: NodeId| other != id ==> #[trigger] final(self).slot_of(other) == old(
                    self,
                ).slot_of(other)
                &&& final(self).entry_point() == match old(self).entry_point() {
                    Some((e, l)) => if e == idx {
                        match last_highest(old(self).slots(), idx as int, old(self).slots().len() as int) {
                            Some(b) => Some((b as usize, old(self).slots()[b].max_layer)),
                            None => None,
                        }
                    } else {
                        Some((e, l))
                    },
                    None => None,
                }
            },
    {
        let idx = match self.idx(id) {
            Some(i) => i,
            None => {
                return Err(GenesisError::InvariantViolation { axiom_id: 4 });
            },
        };
        let ghost g0 = *self;
        let ghost n = g0.slots().len() as int;
        // Step 1: edges held back to the node.
        self.drop_reverse_edges(idx);
        let ghost g1 = *self;
        // Step 2: the node's own lists.
        self.clear_node(idx);
        let ghost g2 = *self;
        // Step 3: the identifier index.
        let raw = id.get();
        if raw < 0xffff_ffffu64 {
            if (self.direct_index.len() as u64) > raw {
                self.direct_index.set(raw as usize, u32::MAX);
            }
        }
        match try_compact_node_id(id) {
            Some(compact) => {
                let found = find_compact_pos(&self.id_index, compact.raw());
                if let Some(p) = found {
                    self.id_index.remove(p);
                }
            },
            None => {
                let found = find_wide_pos(&self.wide_id_index, raw);
                if let Some(p) = found {
                    self.wide_id_index.remove(p);
                }
            },
        }
        // Step 4: the entry point.
        if self.entry == Some(idx) {
            let mut best: Option<usize> = None;
            let mut k: usize = 0;
            while k < self.nodes.len()
                invariant
                    k <= self.nodes@.len(),
                    self.nodes@ == g0.nodes@,
                    best == match last_highest(g0.slots(), idx as int, k as int) {
                        Some(b) => Some(b as usize),
                        None => None::<usize>,
                    },
                decreases self.nodes@.len() - k,
            {
                let node = self.nodes[k];
                proof {
                    lemma_last_highest(g0.slots(), idx as int, k as int);
                }
                if k != idx && node.id.get() != u64::MAX {
                    match best {
                        None => {
                            best = Some(k);
                        },
                        Some(b) => {
                            if node.max_layer >= self.nodes[b].max_layer {
                                best = Some(k);
                            }
                        },
                    }
                }
                k += 1;
            }
            proof {
                lemma_last_highest(g0.slots(), idx as int, k as int);
            }
            match best {
                Some(b) => {
                    self.entry = Some(b);
                    self.entry_layer = self.nodes[b].max_layer;
                },
                None => {
                    self.entry = None;
                },
            }
        }
        // Step 5: the slot becomes a removed node.
        self.nodes.set(idx, HnswNode { id: NodeId::invalid(), max_layer: 0 });
        self.live_nodes = self.live_nodes.saturating_sub(1);
        proof {
            let s0 = g0.slots();
            assert(holds_in(s0, id, idx as int));
            assert(g2.slots() == s0);
            lemma_remove_structure(g2, *self, idx);
            lemma_remove_ids(g2, *self, idx, id);
            lemma_live_count_update(g2.slots(), idx as int, self.slots()[idx as int]);
            assert(self.slots() =~= s0.update(idx as int, self.slots()[idx as int]));
            lemma_remove_entry(g0, *self, idx);
            assert(self.adjacency() == g2.adjacency());
            assert(self.slots().len() == s0.len());
            assert(self.slots()[idx as int].id.raw() == u64::MAX);
            assert(self.slots()[idx as int].max_layer == 0);
            assert(forall|l: int| #[trigger] self.nbrs(idx as int, l) == g2.nbrs(idx as int, l));
            assert(forall|l: int| #[trigger] self.nbrs(idx as int, l) == Seq::<u32>::empty());
            assert forall|j: int, l: int|
                0 <= j < n && j != idx implies #[trigger] self.nbrs(j, l) == if g0.nbrs(idx as int, l).contains(
                j as u32,
            ) {
                without(g0.nbrs(j, l), idx as u32)
            } else {
                g0.nbrs(j, l)
            } by {
                assert(self.nbrs(j, l) == g2.nbrs(j, l));
                assert(g2.nbrs(j, l) == g1.nbrs(j, l));
            }
            assert(self.phase() == g0.phase());
            assert(self.wf());
            let s3 = self.slots();
            assert forall|i: int| !holds_in(s3, id, i) by {
                if holds_in(s3, id, i) {
                    assert(i != idx);
                    assert(s3[i] == s0[i]);
                    assert(g0.holds(id, i));
                }
            }
            assert forall|other: NodeId| other != id implies #[trigger] self.slot_of(other) == g0.slot_of(other) by {
                assert forall|i: int| holds_in(s3, other, i) == holds_in(s0, other, i) by {
                    if i != idx && 0 <= i < n {
                        assert(s3[i] == s0[i]);
                    }
                }
                self.lemma_slot_of_same(g0, other);
            }
        }
        Ok(())
    }
}

/// Position of the entry with compact key `key`, if any.
fn find_compact_pos(entries: &Vec<(CompactNodeId, usize)>, key: u32) -> (r: Option<usize>)
    ensures
        r matches Some(p) ==> p < entries@.len() && entries@[p as int].0.value() == key,
        r is None ==> forall|k: int| 0 <= k < entries@.len() ==> (#[trigger] entries@[k]).0.value() != key,
{
    let mut k: usize = 0;
    while k < entries.len()
        invariant
            k <= entries@.len(),
            forall|j: int| 0 <= j < k ==> entries@[j].0.value() != key,
        decreases entries@.len() - k,
    {
        if entries[k].0.raw() == key {
            return Some(k);
        }
        k += 1;
    }
    None
}

/// Position of the entry with wide identifier `raw`, if any.
fn find_wide_pos(entries: &Vec<WideEntry>, raw: u64) -> (r: Option<usize>)
    ensures
        r matches Some(p) ==> p < entries@.len() && entries@[p as int].id.raw() == raw,
        r is None ==> forall|k: int| 0 <= k < entries@.len() ==> (#[trigger] entries@[k]).id.raw() != raw,
{
    let mut k: usize = 0;
    while k < entries.len()
        invariant
            k <= entries@.len(),
            forall|j: int| 0 <= j < k ==> entries@[j].id.raw() != raw,
        decreases entries@.len() - k,
    {
        if entries[k].id.get() == raw {
            return Some(k);
        }
        k += 1;
    }
    None
}

/// The structural invariant survives turning an emptied slot into a
/// removed node.
proof fn lemma_remove_structure(g2: HnswGraph, g3: HnswGraph, idx: usize)
    requires
        g2.wf(),
        idx < g2.slots().len(),
        forall|l: int| #[trigger] g2.nbrs(idx as int, l) == Seq::<u32>::empty(),
        g3.layer_neighbors@ == g2.layer_neighbors@,
        g3.nodes@.len() == g2.nodes@.len(),
        g3.nodes@[idx as int].id.raw() == u64::MAX,
        g3.nodes@[idx as int].max_layer == 0,
        forall|j: int| 0 <= j < g2.nodes@.len() && j != idx ==> #[trigger] g3.nodes@[j] == g2.nodes@[j],
    ensures
        g3.wf_structure(),
{
    let n = g2.slots().len() as int;
    let s3 = g3.slots();
    assert(g3.adjacency() == g2.adjacency());
    assert forall|i: int, l: int| #[trigger] g3.nbrs(i, l) == g2.nbrs(i, l) by {}
    assert forall|i: int, l: int|
        0 <= i < n && (l < 0 || l > s3[i].max_layer) implies #[trigger] g3.nbrs(i, l) == Seq::<u32>::empty() by {
        assert(g2.nbrs(i, l) == g3.nbrs(i, l));
        if i != idx {
            assert(s3[i] == g2.slots()[i]);
        }
    }
    assert forall|i: int, l: int| 0 <= i < n && !g3.is_live(i) implies #[trigger] g3.nbrs(i, l)
        == Seq::<u32>::empty() by {
        assert(g2.nbrs(i, l) == g3.nbrs(i, l));
        if i != idx {
            assert(s3[i] == g2.slots()[i]);
        }
    }
    assert forall|i: int| 0 <= i < n implies (#[trigger] s3[i]).max_layer < MAX_LAYERS by {
        if i != idx {
            assert(s3[i] == g2.slots()[i]);
        }
    }
    assert forall|i: int| 0 <= i < n implies g3.nbrs(i, 0).len() <= M0 by {
        assert(g3.nbrs(i, 0) == g2.nbrs(i, 0));
    }
    assert forall|i: int, l: int| 0 <= i < n && l != 0 implies #[trigger] g3.nbrs(i, l).len() <= M by {
        assert(g3.nbrs(i, l) == g2.nbrs(i, l));
    }
    assert forall|i: int, l: int, k: int|
        0 <= i < n && 0 <= k < g3.nbrs(i, l).len() implies #[trigger] g3.nbrs(i, l)[k] < n && g3.nbrs(i, l)[k]
        != i by {
        assert(g3.nbrs(i, l) == g2.nbrs(i, l));
    }
}

/// The identifier index stays consistent when the entry of a removed
/// node's identifier is taken out and its direct-table cell cleared.
proof fn lemma_remove_ids(g2: HnswGraph, g3: HnswGraph, idx: usize, id: NodeId)
    requires
        g2.wf(),
        g2.holds(id, idx as int),
        g3.nodes@.len() == g2.nodes@.len(),
        g3.nodes@[idx as int].id.raw() == u64::MAX,
        forall|j: int| 0 <= j < g2.nodes@.len() && j != idx ==> #[trigger] g3.nodes@[j] == g2.nodes@[j],
        g3.state == g2.state,
        id.raw() <= u32::MAX ==> g3.wide_id_index@ == g2.wide_id_index@ && ((g3.id_index@
            == g2.id_index@ && forall|k: int|
            0 <= k < g2.id_index@.len() ==> (#[trigger] g2.id_index@[k]).0.value() != id.raw())
            || exists|p: int|
            0 <= p < g2.id_index@.len() && g2.id_index@[p].0.value() == id.raw() && g3.id_index@
                == g2.id_index@.remove(p)),
        id.raw() > u32::MAX ==> g3.id_index@ == g2.id_index@ && ((g3.wide_id_index@
            == g2.wide_id_index@ && forall|k: int|
            0 <= k < g2.wide_id_index@.len() ==> (#[trigger] g2.wide_id_index@[k]).id.raw() != id.raw())
            || exists|p: int|
            0 <= p < g2.wide_id_index@.len() && g2.wide_id_index@[p].id.raw() == id.raw()
                && g3.wide_id_index@ == g2.wide_id_index@.remove(p)),
        g3.direct_index@ == if (id.raw() as int) < g2.direct_index@.len() {
            g2.direct_index@.update(id.raw() as int, u32::MAX)
        } else {
            g2.direct_index@
        },
    ensures
        g3.wf_ids(),
{
    let n = g2.slots().len() as int;
    let s2 = g2.slots();
    let s3 = g3.slots();
    let raw = id.raw();
    assert forall|i: int| #[trigger] g3.is_live(i) implies i != idx && g2.is_live(i) && s3[i] == s2[i] by {}
    assert forall|i: int| g2.is_live(i) && i != idx implies s2[i].id.raw() != raw by {
        NodeId::lemma_raw_injective(s2[i].id, id);
    }
    let ci2 = g2.id_index@;
    let ci3 = g3.id_index@;
    let wi2 = g2.wide_id_index@;
    let wi3 = g3.wide_id_index@;
    if raw <= u32::MAX {
        let k0 = choose|k: int| 0 <= k < ci2.len() && (#[trigger] ci2[k]).1 == idx;
        assert(ci2[k0].0.value() == raw);
        {
            let p = choose|p: int| 0 <= p < ci2.len() && ci2[p].0.value() == raw && ci3 == ci2.remove(p);
            assert forall|k: int| 0 <= k < ci3.len() implies g3.is_live((#[trigger] ci3[k]).1 as int)
                && s3[ci3[k].1 as int].id.raw() == ci3[k].0.value() by {
                let q = if k < p {
                    k
                } else {
                    k + 1
                };
                assert(ci3[k] == ci2[q]);
                assert(g2.is_live(ci2[q].1 as int));
                if ci2[q].1 == idx {
                    CompactNodeId::lemma_value_injective(ci2[q].0, ci2[p].0);
                    assert(q != p);
                }
            }
            assert forall|k1: int, k2: int| 0 <= k1 < k2 < ci3.len() implies (#[trigger] ci3[k1]).0
                != (#[trigger] ci3[k2]).0 by {
                let q1 = if k1 < p {
                    k1
                } else {
                    k1 + 1
                };
                let q2 = if k2 < p {
                    k2
                } else {
                    k2 + 1
                };
                assert(ci3[k1] == ci2[q1] && ci3[k2] == ci2[q2]);
            }
            assert forall|i: int|
                #![trigger s3[i]]
                g3.is_live(i) && s3[i].id.raw() <= u32::MAX implies exists|k: int|
                0 <= k < ci3.len() && (#[trigger] ci3[k]).1 == i by {
                let q = choose|q: int| 0 <= q < ci2.len() && (#[trigger] ci2[q]).1 == i;
                assert(ci2[q].0.value() == s2[i].id.raw());
                assert(q != p);
                if q < p {
                    assert(ci3[q] == ci2[q]);
                } else {
                    assert(ci3[q - 1] == ci2[q]);
                }
            }
            if g3.state == GraphState::Compacted {
                assert forall|k1: int, k2: int| 0 <= k1 < k2 < ci3.len() implies (#[trigger] ci3[k1]).0.value()
                    < (#[trigger] ci3[k2]).0.value() by {
                    let q1 = if k1 < p {
                        k1
                    } else {
                        k1 + 1
                    };
                    let q2 = if k2 < p {
                        k2
                    } else {
                        k2 + 1
                    };
                    assert(ci3[k1] == ci2[q1] && ci3[k2] == ci2[q2]);
                }
            }
        }
        assert forall|k: int| 0 <= k < wi3.len() implies g3.is_live((#[trigger] wi3[k]).slot as int)
            && s3[wi3[k].slot as int].id == wi3[k].id && wi3[k].id.raw() > u32::MAX by {
            assert(g2.is_live(wi2[k].slot as int));
        }
        assert forall|i: int|
            #![trigger s3[i]]
            g3.is_live(i) && s3[i].id.raw() > u32::MAX implies exists|k: int|
            0 <= k < wi3.len() && (#[trigger] wi3[k]).slot == i by {
            assert(s3[i] == s2[i]);
            let q = choose|q: int| 0 <= q < wi2.len() && (#[trigger] wi2[q]).slot == i;
        }
    } else {
        let k0 = choose|k: int| 0 <= k < wi2.len() && (#[trigger] wi2[k]).slot == idx;
        assert(wi2[k0].id == id);
        {
            let p = choose|p: int|
                0 <= p < wi2.len() && wi2[p].id.raw() == raw && wi3 == wi2.remove(p);
            assert forall|k: int| 0 <= k < wi3.len() implies g3.is_live((#[trigger] wi3[k]).slot as int)
                && s3[wi3[k].slot as int].id == wi3[k].id && wi3[k].id.raw() > u32::MAX by {
                let q = if k < p {
                    k
                } else {
                    k + 1
                };
                assert(wi3[k] == wi2[q]);
                assert(g2.is_live(wi2[q].slot as int));
                if wi2[q].slot == idx {
                    NodeId::lemma_raw_injective(wi2[q].id, wi2[p].id);
                    assert(q != p);
                }
            }
            assert forall|k1: int, k2: int| 0 <= k1 < k2 < wi3.len() implies (#[trigger] wi3[k1]).id
                != (#[trigger] wi3[k2]).id by {
                let q1 = if k1 < p {
                    k1
                } else {
                    k1 + 1
                };
                let q2 = if k2 < p {
                    k2
                } else {
                    k2 + 1
                };
                assert(wi3[k1] == wi2[q1] && wi3[k2] == wi2[q2]);
            }
            assert forall|i: int|
                #![trigger s3[i]]
                g3.is_live(i) && s3[i].id.raw() > u32::MAX implies exists|k: int|
                0 <= k < wi3.len() && (#[trigger] wi3[k]).slot == i by {
                let q = choose|q: int| 0 <= q < wi2.len() && (#[trigger] wi2[q]).slot == i;
                assert(wi2[q].id == s2[i].id);
                NodeId::lemma_raw_injective(wi2[q].id, wi2[p].id);
                assert(q != p);
                if q < p {
                    assert(wi3[q] == wi2[q]);
                } else {
                    assert(wi3[q - 1] == wi2[q]);
                }
            }
            if g3.state == GraphState::Compacted {
                assert forall|k1: int, k2: int| 0 <= k1 < k2 < wi3.len() implies (#[trigger] wi3[k1]).id.raw()
                    < (#[trigger] wi3[k2]).id.raw() by {
                    let q1 = if k1 < p {
                        k1
                    } else {
                        k1 + 1
                    };
                    let q2 = if k2 < p {
                        k2
                    } else {
                        k2 + 1
                    };
                    assert(wi3[k1] == wi2[q1] && wi3[k2] == wi2[q2]);
                }
            }
        }
        assert forall|k: int| 0 <= k < ci3.len() implies g3.is_live((#[trigger] ci3[k]).1 as int)
            && s3[ci3[k].1 as int].id.raw() == ci3[k].0.value() by {
            assert(g2.is_live(ci2[k].1 as int));
        }
        assert forall|i: int|
            #![trigger s3[i]]
            g3.is_live(i) && s3[i].id.raw() <= u32::MAX implies exists|k: int|
            0 <= k < ci3.len() && (#[trigger] ci3[k]).1 == i by {
            assert(s3[i] == s2[i]);
            let q = choose|q: int| 0 <= q < ci2.len() && (#[trigger] ci2[q]).1 == i;
        }
    }
    let di2 = g2.direct_index@;
    let di3 = g3.direct_index@;
    assert forall|r: int|
        0 <= r < di3.len() && #[trigger] di3[r] != u32::MAX implies g3.is_live(di3[r] as int)
        && s3[di3[r] as int].id.raw() == r by {
        assert(r != raw);
        assert(di3[r] == di2[r]);
        assert(g2.is_live(di2[r] as int));
        if di2[r] == idx {
            assert(r == raw);
        }
    }
    assert(di3.len() <= 0xffff_ffff);
    assert forall|i: int, j: int|
        g3.is_live(i) && g3.is_live(j) && s3[i].id == s3[j].id implies i == j by {
        assert(g2.is_live(i) && g2.is_live(j));
    }
    if g3.state == GraphState::Compacted {
        assert(forall|k1: int, k2: int|
            0 <= k1 < k2 < ci3.len() ==> (#[trigger] ci3[k1]).0.value() < (#[trigger] ci3[k2]).0.value());
        assert(forall|k1: int, k2: int|
            0 <= k1 < k2 < wi3.len() ==> (#[trigger] wi3[k1]).id.raw() < (#[trigger] wi3[k2]).id.raw());
    }
    assert(forall|k1: int, k2: int| 0 <= k1 < k2 < ci3.len() ==> (#[trigger] ci3[k1]).0 != (#[trigger] ci3[k2]).0);
    assert(forall|k1: int, k2: int| 0 <= k1 < k2 < wi3.len() ==> (#[trigger] wi3[k1]).id != (#[trigger] wi3[k2]).id);
}

/// Turning a live slot into a removed node keeps the entry point valid when
/// the entry moves to the last live node of the highest layer (or stays,
/// when it was another node).
proof fn lemma_remove_entry(g0: HnswGraph, g3: HnswGraph, idx: usize)
    requires
        g0.wf(),
        g0.is_live(idx as int),
        g3.slots().len() == g0.slots().len(),
        g3.slots()[idx as int].id.raw() == u64::MAX,
        forall|j: int| 0 <= j < g0.slots().len() && j != idx ==> #[trigger] g3.slots()[j] == g0.slots()[j],
        g3.entry_point() == match g0.entry_point() {
            Some((e, l)) => if e == idx {
                match last_highest(g0.slots(), idx as int, g0.slots().len() as int) {
                    Some(b) => Some((b as usize, g0.slots()[b].max_layer)),
                    None => None,
                }
            } else {
                Some((e, l))
            },
            None => None,
        },
    ensures
        g3.wf_entry(),
{
    let s0 = g0.slots();
    let n = s0.len() as int;
    lemma_last_highest(s0, idx as int, n);
    assert forall|i: int| #[trigger] g3.is_live(i) implies i != idx && g0.is_live(i) && g3.slots()[i]
        == s0[i] by {}
    assert forall|i: int| 0 <= i < n && i != idx && g0.is_live(i) implies #[trigger] g3.is_live(i) by {}
    if g3.entry_point() is Some {
        let (e, l) = g3.entry_point()->0;
        assert(g3.is_live(e as int));
    } else {
        assert forall|i: int| !g3.is_live(i) by {
            if g3.is_live(i) {
                assert(g0.is_live(i) && i != idx);
                assert(s0[i].id.raw() != u64::MAX);
            }
        }
    }
}

/// The identifiers of the slots named by a list of neighbour indices.
pub open spec fn ids_of(slots: Seq<HnswNode>, s: Seq<u32>) -> Seq<NodeId> {
    s.map_values(|nb: u32| slots[nb as int].id)
}

/// Each value of `s` at its first occurrence, in order.
pub open spec fn first_occurrences(s: Seq<NodeId>) -> Seq<NodeId>
    decreases s.len(),
{
    if s.len() == 0 {
        Seq::empty()
    } else {
        let p = first_occurrences(s.drop_last());
        if p.contains(s.last()) {
            p
        } else {
            p.push(s.last())
        }
    }
}

proof fn lemma_first_occurrences_push(s: Seq<NodeId>, x: NodeId)
    ensures
        first_occurrences(s.push(x)) == if first_occurrences(s).contains(x) {
            first_occurrences(s)
        } else {
            first_occurrences(s).push(x)
        },
{
    assert(s.push(x).drop_last() =~= s);
}

/// Whether `x` occurs in `v`.
fn contains_id(v: &Vec<NodeId>, x: NodeId) -> (r: bool)
    ensures
        r == v@.contains(x),
{
    let mut k: usize = 0;
    while k < v.len()
        invariant
            k <= v@.len(),
            forall|j: int| 0 <= j < k ==> v@[j] != x,
        decreases v@.len() - k,
    {
        if v[k] == x {
            return true;
        }
        k += 1;
    }
    false
}

impl HnswGraph {
    /// The identifiers of the neighbours of slot `i` on layers below `upto`,
    /// layer by layer.
    pub open spec fn layered_ids(self, i: int, upto: int) -> Seq<NodeId>
        decreases upto,
    {
        if upto <= 0 {
            Seq::empty()
        } else {
            self.layered_ids(i, upto - 1) + ids_of(self.slots(), self.nbrs(i, upto - 1))
        }
    }

    /// The identifiers of a node's neighbours over all the layers it
    /// reaches, each once, in the order met from layer 0 upwards; empty for
    /// an identifier that is not live.
    pub fn neighbors(&self, id: NodeId) -> (r: Vec<NodeId>)
        requires
            self.wf(),
        ensures
            self.slot_of(id) is None ==> r@ == Seq::<NodeId>::empty(),
            self.slot_of(id) matches Some(idx) ==> r@ == first_occurrences(
                self.layered_ids(idx as int, self.slots()[idx as int].max_layer + 1),
            ),
    {
        let mut out: Vec<NodeId> = Vec::new();
        let idx = match self.idx(id) {
            Some(i) => i,
            None => {
                return out;
            },
        };
        let max_layer = self.nodes[idx].max_layer;
        let mut layer: usize = 0;
        while layer <= max_layer
            invariant
                self.wf(),
                idx < self.slots().len(),
                max_layer == self.slots()[idx as int].max_layer,
                max_layer < MAX_LAYERS,
                layer <= max_layer + 1,
                out@ == first_occurrences(self.layered_ids(idx as int, layer as int)),
            decreases max_layer + 1 - layer,
        {
            let len = self.layer_neighbors[idx].neighbors_len(layer);
            let ghost own = self.nbrs(idx as int, layer as int);
            let ghost base = self.layered_ids(idx as int, layer as int);
            let mut pos: usize = 0;
            while pos < len
                invariant
                    self.wf(),
                    idx < self.slots().len(),
                    own == self.nbrs(idx as int, layer as int),
                    len == own.len(),
                    pos <= len,
                    out@ == first_occurrences(base + ids_of(self.slots(), own.take(pos as int))),
                decreases len - pos,
            {
                let nb_opt = self.layer_neighbors[idx].neighbor_at(layer, pos);
                if let Some(nb) = nb_opt {
                    proof {
                        assert(nb == own[pos as int]);
                        assert(own[pos as int] < self.slots().len());
                    }
                    let nid = self.nodes[nb as usize].id;
                    let seen = contains_id(&out, nid);
                    proof {
                        let prefix = base + ids_of(self.slots(), own.take(pos as int));
                        assert(base + ids_of(self.slots(), own.take(pos as int + 1)) =~= prefix.push(nid));
                        lemma_first_occurrences_push(prefix, nid);
                    }
                    if !seen {
                        out.push(nid);
                    }
                }
                pos += 1;
            }
            proof {
                assert(own.take(len as int) =~= own);
            }
            layer += 1;
        }
        out
    }
}

broadcast use vstd::seq_lib::group_to_multiset_ensures;

impl KeyOrder for WideEntry {
    open spec fn sorts_before(self, other: Self) -> bool {
        self.id.raw() < other.id.raw() || (self.id.raw() == other.id.raw() && self.slot <= other.slot)
    }

    proof fn lemma_total(a: Self, b: Self) {
    }

    proof fn lemma_trans(a: Self, b: Self, c: Self) {
    }

    proof fn lemma_antisym(a: Self, b: Self) {
        NodeId::lemma_raw_injective(a.id, b.id);
    }

    fn key_le(&self, other: &Self) -> (r: bool) {
        self.id.get() < other.id.get() || (self.id.get() == other.id.get() && self.slot <= other.slot)
    }

    fn same(&self, other: &Self) -> (r: bool) {
        self.id == other.id && self.slot == other.slot
    }
}

/// A stable radix sort of entries with distinct keys is a strictly
/// ascending rearrangement of them.
proof fn lemma_radix_result(orig: Seq<IndexEntry>, out: Seq<IndexEntry>)
    requires
        stable_sorted(orig, out),
        forall|k1: int, k2: int| 0 <= k1 < k2 < orig.len() ==> (#[trigger] orig[k1]).0 != (#[trigger] orig[k2]).0,
    ensures
        out.len() == orig.len(),
        forall|k: int| 0 <= k < out.len() ==> orig.contains(#[trigger] out[k]),
        forall|q: int| 0 <= q < orig.len() ==> out.contains(#[trigger] orig[q]),
        forall|k1: int, k2: int|
            0 <= k1 < k2 < out.len() ==> (#[trigger] out[k1]).0.value() < (#[trigger] out[k2]).0.value(),
{
    let pos = choose|pos: Seq<int>| radix_state(orig, out, pos, 4);
    let n = orig.len() as int;
    assert forall|k: int| 0 <= k < out.len() implies orig.contains(#[trigger] out[k]) by {
        assert(out[k] == orig[pos[k]]);
    }
    assert forall|k1: int, k2: int| 0 <= k1 < k2 < out.len() implies (#[trigger] out[k1]).0.value()
        < (#[trigger] out[k2]).0.value() by {
        assert(low(out[k1], 4) == out[k1].0.value() as int);
        assert(low(out[k2], 4) == out[k2].0.value() as int);
        if out[k1].0.value() == out[k2].0.value() {
            CompactNodeId::lemma_value_injective(out[k1].0, out[k2].0);
            let q1 = pos[k1];
            let q2 = pos[k2];
            assert(q1 < q2);
            assert(orig[q1].0 == orig[q2].0);
        }
    }
    let x = set_int_range(0, n);
    let f = |k: int| pos[k];
    let y = x.map(f);
    lemma_int_range(0, n);
    assert(injective_on(f, x)) by {
        assert forall|k1: int, k2: int| x.contains(k1) && x.contains(k2) && #[trigger] f(k1) == #[trigger] f(k2) implies k1
            == k2 by {
            if k1 < k2 {
                assert(out[k1] == out[k2]);
                assert(out[k1].0.value() < out[k2].0.value());
            } else if k2 < k1 {
                assert(out[k1] == out[k2]);
                assert(out[k2].0.value() < out[k1].0.value());
            }
        }
    }
    lemma_map_size(x, y, f);
    assert(y.subset_of(x)) by {
        assert forall|q: int| y.contains(q) implies x.contains(q) by {
            let k = choose|k: int| x.contains(k) && f(k) == q;
        }
    }
    lemma_subset_equality(y, x);
    assert forall|q: int| 0 <= q < orig.len() implies out.contains(#[trigger] orig[q]) by {
        assert(x.contains(q));
        assert(y.contains(q));
        let k = choose|k: int| x.contains(k) && f(k) == q;
        assert(out[k] == orig[q]);
    }
}

/// A sort of wide entries with distinct identifiers is a strictly
/// ascending rearrangement of them.
proof fn lemma_sorted_wide(wi0: Seq<WideEntry>, wi1: Seq<WideEntry>)
    requires
        wi1.to_multiset() == wi0.to_multiset(),
        sorted_by_key(wi1),
        forall|k1: int, k2: int| 0 <= k1 < k2 < wi0.len() ==> (#[trigger] wi0[k1]).id != (#[trigger] wi0[k2]).id,
    ensures
        forall|k: int| 0 <= k < wi1.len() ==> wi0.contains(#[trigger] wi1[k]),
        forall|q: int| 0 <= q < wi0.len() ==> wi1.contains(#[trigger] wi0[q]),
        forall|k1: int, k2: int| 0 <= k1 < k2 < wi1.len() ==> (#[trigger] wi1[k1]).id.raw() < (#[trigger] wi1[k2]).id.raw(),
{
    assert forall|k: int| 0 <= k < wi1.len() implies wi0.contains(#[trigger] wi1[k]) by {
        assert(wi1.contains(wi1[k]));
        assert(wi1.to_multiset().contains(wi1[k]));
    }
    assert forall|q: int| 0 <= q < wi0.len() implies wi1.contains(#[trigger] wi0[q]) by {
        assert(wi0.contains(wi0[q]));
        assert(wi0.to_multiset().contains(wi0[q]));
    }
    assert(wi0.no_duplicates()) by {
        assert forall|a: int, b: int| 0 <= a < wi0.len() && 0 <= b < wi0.len() && a != b implies wi0[a] != wi0[b] by {
            if a < b {
                assert(wi0[a].id != wi0[b].id);
            } else {
                assert(wi0[b].id != wi0[a].id);
            }
        }
    }
    wi0.lemma_multiset_has_no_duplicates();
    wi1.lemma_multiset_has_no_duplicates_conv();
    assert forall|k1: int, k2: int| 0 <= k1 < k2 < wi1.len() implies (#[trigger] wi1[k1]).id.raw() < (#[trigger] wi1[k2]).id.raw() by {
        assert(wi1[k1].sorts_before(wi1[k2]));
        if wi1[k1].id.raw() == wi1[k2].id.raw() {
            assert(wi0.contains(wi1[k1]) && wi0.contains(wi1[k2]));
            let q1 = choose|q: int| 0 <= q < wi0.len() && wi0[q] == wi1[k1];
            let q2 = choose|q: int| 0 <= q < wi0.len() && wi0[q] == wi1[k2];
            NodeId::lemma_raw_injective(wi0[q1].id, wi0[q2].id);
            if q1 < q2 {
                assert(wi0[q1].id != wi0[q2].id);
            } else if q2 < q1 {
                assert(wi0[q2].id != wi0[q1].id);
            } else {
                assert(wi1[k1] != wi1[k2]);
            }
        }
    }
}

impl HnswGraph {
    /// Closes the index for insertion and sorts both entry lists by
    /// identifier, so that lookups bisect; a second call does nothing.
    pub fn compact_index(&mut self)
        requires
            old(self).wf(),
        ensures
            final(self).wf(),
            final(self).phase() == GraphState::Compacted,
            final(self).slots() == old(self).slots(),
            final(self).adjacency() == old(self).adjacency(),
            final(self).entry_point() == old(self).entry_point(),
            forall|id: NodeId| #[trigger] final(self).slot_of(id) == old(self).slot_of(id),
    {
        if self.state == GraphState::Compacted {
            return;
        }
        let ghost g0 = *self;
        radix_sort_node_ids(&mut self.id_index);
        let sorted_wide = merge_sort(&self.wide_id_index);
        self.wide_id_index = sorted_wide;
        self.state = GraphState::Compacted;
        proof {
            let ci0 = g0.id_index@;
            let ci1 = self.id_index@;
            let wi0 = g0.wide_id_index@;
            let wi1 = self.wide_id_index@;
            let s = self.slots();
            lemma_radix_result(ci0, ci1);
            assert forall|k: int| 0 <= k < ci1.len() implies self.is_live((#[trigger] ci1[k]).1 as int)
                && s[ci1[k].1 as int].id.raw() == ci1[k].0.value() by {
                assert(ci0.contains(ci1[k]));
                let q = choose|q: int| 0 <= q < ci0.len() && ci0[q] == ci1[k];
                assert(ci0[q] == ci1[k]);
            }
            assert forall|k1: int, k2: int| 0 <= k1 < k2 < ci1.len() implies (#[trigger] ci1[k1]).0
                != (#[trigger] ci1[k2]).0 by {
                assert(ci1[k1].0.value() < ci1[k2].0.value());
            }
            assert forall|i: int|
                #![trigger s[i]]
                self.is_live(i) && s[i].id.raw() <= u32::MAX implies exists|k: int|
                0 <= k < ci1.len() && (#[trigger] ci1[k]).1 == i by {
                let q = choose|q: int| 0 <= q < ci0.len() && (#[trigger] ci0[q]).1 == i;
                assert(ci1.contains(ci0[q]));
                let k = choose|k: int| 0 <= k < ci1.len() && ci1[k] == ci0[q];
                assert(ci1[k].1 == i);
            }
            // wide entries: a sorted rearrangement
            lemma_sorted_wide(wi0, wi1);
            assert forall|k: int| 0 <= k < wi1.len() implies self.is_live((#[trigger] wi1[k]).slot as int)
                && s[wi1[k].slot as int].id == wi1[k].id && wi1[k].id.raw() > u32::MAX by {
                assert(wi0.contains(wi1[k]));
                let q = choose|q: int| 0 <= q < wi0.len() && wi0[q] == wi1[k];
                assert(wi0[q] == wi1[k]);
            }
            assert forall|k1: int, k2: int| 0 <= k1 < k2 < wi1.len() implies (#[trigger] wi1[k1]).id
                != (#[trigger] wi1[k2]).id by {
                assert(wi1[k1].id.raw() < wi1[k2].id.raw());
            }
            assert forall|i: int|
                #![trigger s[i]]
                self.is_live(i) && s[i].id.raw() > u32::MAX implies exists|k: int|
                0 <= k < wi1.len() && (#[trigger] wi1[k]).slot == i by {
                let q = choose|q: int| 0 <= q < wi0.len() && (#[trigger] wi0[q]).slot == i;
                assert(wi1.contains(wi0[q]));
                let k = choose|k: int| 0 <= k < wi1.len() && wi1[k] == wi0[q];
                assert(wi1[k].slot == i);
            }
            assert(self.slots() == g0.slots());
            assert(self.direct_index@ == g0.direct_index@);
            assert(self.wf_ids());
            assert(self.adjacency() == g0.adjacency());
            assert(self.wf_structure()) by {
                assert forall|i: int, l: int| #[trigger] self.nbrs(i, l) == g0.nbrs(i, l) by {}
            }
        }
    }
}

/// A neighbour with an integer key that orders it by distance (such as the
/// order-preserving bit pattern of the distance).
#[derive(Clone, Copy, Debug, PartialEq, Eq, Structural)]
pub struct ScoredNeighbor {
    /// Distance key: smaller means closer.
    pub key: u64,
    /// Internal index of the neighbour.
    pub neighbor: u32,
}

impl KeyOrder for ScoredNeighbor {
    open spec fn sorts_before(self, other: Self) -> bool {
        self.key < other.key || (self.key == other.key && self.neighbor <= other.neighbor)
    }

    proof fn lemma_total(a: Self, b: Self) {
    }

    proof fn lemma_trans(a: Self, b: Self, c: Self) {
    }

    proof fn lemma_antisym(a: Self, b: Self) {
    }

    fn key_le(&self, other: &Self) -> (r: bool) {
        self.key < other.key || (self.key == other.key && self.neighbor <= other.neighbor)
    }

    fn same(&self, other: &Self) -> (r: bool) {
        self.key == other.key && self.neighbor == other.neighbor
    }
}

/// The neighbour indices of scored entries.
pub open spec fn scored_neighbors(s: Seq<ScoredNeighbor>) -> Seq<u32> {
    s.map_values(|e: ScoredNeighbor| e.neighbor)
}

impl HnswGraph {
    /// Keeps the `m_max` closest neighbours of slot `idx` at a layer and
    /// drops the edges to the others in both directions. `scored` gives each
    /// current neighbour, in list order, with its distance key; neighbours
    /// are ranked by key, then by index. Nothing happens above the node's
    /// highest layer or when it has at most `m_max` neighbours there.
    pub fn prune_layer(&mut self, idx: usize, layer: usize, m_max: usize, scored: &Vec<ScoredNeighbor>)
        requires
            old(self).wf(),
            idx < old(self).slots().len(),
            scored_neighbors(scored@) == old(self).nbrs(idx as int, layer as int),
        ensures
            final(self).wf(),
            final(self).slots() == old(self).slots(),
            final(self).entry_point() == old(self).entry_point(),
            final(self).phase() == old(self).phase(),
            forall|i: int, l: int|
                0 <= i < old(self).slots().len() && l != layer ==> #[trigger] final(self).nbrs(i, l)
                    == old(self).nbrs(i, l),
            layer > old(self).slots()[idx as int].max_layer || scored@.len() <= m_max ==> forall|i: int|
                0 <= i < old(self).slots().len() ==> #[trigger] final(self).nbrs(i, layer as int) == old(
                    self,
                ).nbrs(i, layer as int),
            layer <= old(self).slots()[idx as int].max_layer && scored@.len() > m_max ==> exists|
                order: Seq<ScoredNeighbor>,
            |
                {
                    &&& sorted_by_key(order)
                    &&& order.to_multiset() == scored@.to_multiset()
                    &&& forall|x: u32|
                        #[trigger] final(self).nbrs(idx as int, layer as int).contains(x) <==> (old(
                            self,
                        ).nbrs(idx as int, layer as int).contains(x) && !scored_neighbors(
                            order.subrange(m_max as int, order.len() as int),
                        ).contains(x))
                    &&& forall|v: int|
                        0 <= v < old(self).slots().len() && v != idx ==> #[trigger] final(self).nbrs(
                            v,
                            layer as int,
                        ) == if scored_neighbors(order.subrange(m_max as int, order.len() as int)).contains(
                            v as u32,
                        ) {
                            without(old(self).nbrs(v, layer as int), idx as u32)
                        } else {
                            old(self).nbrs(v, layer as int)
                        }
                },
    {
        if layer > self.nodes[idx].max_layer {
            return;
        }
        let degree = self.layer_neighbors[idx].neighbors_len(layer);
        proof {
            assert(scored_neighbors(scored@).len() == scored@.len());
        }
        if degree <= m_max {
            return;
        }
        let ghost g0 = *self;
        let ghost n = g0.slots().len() as int;
        let ghost own = g0.nbrs(idx as int, layer as int);
        let order = merge_sort(scored);
        proof {
            assert forall|k: int| 0 <= k < order@.len() implies own.contains(#[trigger] order@[k].neighbor) by {
                assert(order@.contains(order@[k]));
                assert(order@.to_multiset().contains(order@[k]));
                assert(scored@.to_multiset().contains(order@[k]));
                assert(scored@.contains(order@[k]));
                let q = choose|q: int| 0 <= q < scored@.len() && scored@[q] == order@[k];
                assert(scored_neighbors(scored@)[q] == order@[k].neighbor);
            }
            assert(order@.len() == scored@.len()) by {
                assert(order@.to_multiset().len() == scored@.to_multiset().len());
            }
        }
        let mut t: usize = m_max;
        while t < order.len()
            invariant
                self.wf(),
                g0.wf(),
                n == g0.slots().len(),
                idx < n,
                m_max <= t <= order@.len(),
                self.slots() == g0.slots(),
                self.entry_point() == g0.entry_point(),
                self.phase() == g0.phase(),
                own == g0.nbrs(idx as int, layer as int),
                forall|k: int| 0 <= k < order@.len() ==> own.contains(#[trigger] order@[k].neighbor),
                forall|i: int, l: int| 0 <= i < n && l != layer ==> #[trigger] self.nbrs(i, l) == g0.nbrs(i, l),
                forall|x: u32|
                    #[trigger] self.nbrs(idx as int, layer as int).contains(x) <==> (own.contains(x)
                        && !scored_neighbors(order@.subrange(m_max as int, t as int)).contains(x)),
                forall|v: int|
                    0 <= v < n && v != idx ==> #[trigger] self.nbrs(v, layer as int) == if scored_neighbors(
                        order@.subrange(m_max as int, t as int),
                    ).contains(v as u32) {
                        without(g0.nbrs(v, layer as int), idx as u32)
                    } else {
                        g0.nbrs(v, layer as int)
                    },
            decreases order@.len() - t,
        {
            let nb = order[t].neighbor;
            let ghost cur = *self;
            proof {
                assert(own.contains(order@[t as int].neighbor));
                let q = choose|q: int| 0 <= q < own.len() && own[q] == nb;
                assert(g0.nbrs(idx as int, layer as int)[q] < n && g0.nbrs(idx as int, layer as int)[q] != idx);
            }
            self.remove_edge_bidirectional(idx, layer, nb as usize);
            proof {
                let d0 = scored_neighbors(order@.subrange(m_max as int, t as int));
                let d1 = scored_neighbors(order@.subrange(m_max as int, t as int + 1));
                assert(d1 =~= d0.push(nb));
                assert(cur.adjacency()[idx as int].wf());
                lemma_without(cur.nbrs(idx as int, layer as int), nb);
                assert forall|x: u32| #[trigger] self.nbrs(idx as int, layer as int).contains(x) <==> (own.contains(x)
                    && !d1.contains(x)) by {
                    assert(cur.nbrs(idx as int, layer as int).contains(x) <==> (own.contains(x) && !d0.contains(x)));
                    assert(d1.contains(x) <==> (d0.contains(x) || x == nb)) by {
                        if d1.contains(x) {
                            let k = choose|k: int| 0 <= k < d1.len() && d1[k] == x;
                            if k < d0.len() {
                                assert(d0[k] == x);
                            }
                        }
                        if d0.contains(x) {
                            let k = choose|k: int| 0 <= k < d0.len() && d0[k] == x;
                            assert(d1[k] == x);
                        }
                        assert(d1[d0.len() as int] == nb);
                    }
                }
                assert forall|v: int| 0 <= v < n && v != idx implies #[trigger] self.nbrs(v, layer as int) == if d1.contains(
                    v as u32,
                ) {
                    without(g0.nbrs(v, layer as int), idx as u32)
                } else {
                    g0.nbrs(v, layer as int)
                } by {
                    assert(d1.contains(v as u32) <==> (d0.contains(v as u32) || v == nb)) by {
                        if d1.contains(v as u32) {
                            let k = choose|k: int| 0 <= k < d1.len() && d1[k] == v as u32;
                            if k < d0.len() {
                                assert(d0[k] == v as u32);
                            }
                        }
                        if d0.contains(v as u32) {
                            let k = choose|k: int| 0 <= k < d0.len() && d0[k] == v as u32;
                            assert(d1[k] == v as u32);
                        }
                        assert(d1[d0.len() as int] == nb);
                    }
                    if v == nb {
                        assert(g0.adjacency()[v].wf());
                        lemma_without(g0.nbrs(v, layer as int), idx as u32);
                        if d0.contains(v as u32) {
                            assert(!cur.nbrs(v, layer as int).contains(idx as u32));
                        }
                    } else {
                        assert(self.nbrs(v, layer as int) == cur.nbrs(v, layer as int));
                    }
                }
                assert forall|i: int, l: int| 0 <= i < n && l != layer implies #[trigger] self.nbrs(i, l) == g0.nbrs(i, l) by {
                    assert(self.nbrs(i, l) == cur.nbrs(i, l));
                }
            }
            t += 1;
        }
        proof {
            assert(order@.subrange(m_max as int, t as int) == order@.subrange(m_max as int, order@.len() as int));
        }
    }
}

/// Walks `seq` from the front: an index below the length of the marks that
/// is not yet marked with `stamp` is collected and marked. Returns the
/// collected indices and the marks after the walk.
pub open spec fn stamp_walk(seq: Seq<u32>, marks: Seq<u32>, stamp: u32) -> (Seq<usize>, Seq<u32>)
    decreases seq.len(),
{
    if seq.len() == 0 {
        (Seq::empty(), marks)
    } else {
        let (o, m) = stamp_walk(seq.drop_last(), marks, stamp);
        let x = seq.last();
        if (x as int) < m.len() && m[x as int] != stamp {
            (o.push(x as usize), m.update(x as int, stamp))
        } else {
            (o, m)
        }
    }
}

proof fn lemma_stamp_walk_push(seq: Seq<u32>, marks: Seq<u32>, stamp: u32, x: u32)
    ensures
        stamp_walk(seq.push(x), marks, stamp) == ({
            let (o, m) = stamp_walk(seq, marks, stamp);
            if (x as int) < m.len() && m[x as int] != stamp {
                (o.push(x as usize), m.update(x as int, stamp))
            } else {
                (o, m)
            }
        }),
{
    assert(seq.push(x).drop_last() =~= seq);
}

proof fn lemma_stamp_walk_bounds(seq: Seq<u32>, marks: Seq<u32>, stamp: u32)
    ensures
        stamp_walk(seq, marks, stamp).0.len() <= seq.len(),
        stamp_walk(seq, marks, stamp).1.len() == marks.len(),
    decreases seq.len(),
{
    if seq.len() > 0 {
        lemma_stamp_walk_bounds(seq.drop_last(), marks, stamp);
    }
}

impl HnswGraph {
    /// The neighbour indices of slot `i` on layers below `upto`, layer by layer.
    pub open spec fn layered(self, i: int, upto: int) -> Seq<u32>
        decreases upto,
    {
        if upto <= 0 {
            Seq::empty()
        } else {
            self.layered(i, upto - 1) + self.nbrs(i, upto - 1)
        }
    }

    proof fn lemma_layered_len(self, i: int, upto: int)
        requires
            self.wf(),
            0 <= i < self.slots().len(),
            0 <= upto,
        ensures
            self.layered(i, upto).len() <= M0 * upto,
        decreases upto,
    {
        if upto > 0 {
            self.lemma_layered_len(i, upto - 1);
            if upto - 1 == 0 {
                assert(self.nbrs(i, 0).len() <= M0);
            } else {
                assert(self.nbrs(i, upto - 1).len() <= M);
            }
        }
    }

    /// Appends to `out` the neighbour indices of node `id`, over all the
    /// layers it reaches, that are below the length of `marks` and not yet
    /// marked with `stamp`, marking each as it goes; returns how many were
    /// appended. A zero stamp or an identifier that is not live appends
    /// nothing.
    pub fn extend_neighbors_dedup(&self, id: NodeId, marks: &mut [u32], stamp: u32, out: &mut Vec<usize>) -> (pushed: usize)
        requires
            self.wf(),
        ensures
            stamp == 0 || self.slot_of(id) is None ==> {
                &&& pushed == 0
                &&& final(marks)@ == old(marks)@
                &&& final(out)@ == old(out)@
            },
            stamp != 0 && self.slot_of(id) is Some ==> ({
                let idx = self.slot_of(id)->0 as int;
                let (collected, marked) = stamp_walk(
                    self.layered(idx, self.slots()[idx].max_layer + 1),
                    old(marks)@,
                    stamp,
                );
                &&& final(out)@ == old(out)@ + collected
                &&& final(marks)@ == marked
                &&& pushed == collected.len()
            }),
    {
        if stamp == 0 {
            return 0;
        }
        let idx = match self.idx(id) {
            Some(i) => i,
            None => {
                return 0;
            },
        };
        let ghost out0 = out@;
        let ghost marks0 = marks@;
        let max_layer = self.nodes[idx].max_layer;
        let mut pushed: usize = 0;
        let mut layer: usize = 0;
        proof {
            assert(stamp_walk(self.layered(idx as int, 0), marks0, stamp) == (Seq::<usize>::empty(), marks0));
            assert(out0 + Seq::<usize>::empty() =~= out0);
        }
        while layer <= max_layer
            invariant
                self.wf(),
                idx < self.slots().len(),
                max_layer == self.slots()[idx as int].max_layer,
                max_layer < MAX_LAYERS,
                layer <= max_layer + 1,
                out@ == out0 + stamp_walk(self.layered(idx as int, layer as int), marks0, stamp).0,
                marks@ == stamp_walk(self.layered(idx as int, layer as int), marks0, stamp).1,
                pushed == stamp_walk(self.layered(idx as int, layer as int), marks0, stamp).0.len(),
            decreases max_layer + 1 - layer,
        {
            let len = self.layer_neighbors[idx].neighbors_len(layer);
            let ghost own = self.nbrs(idx as int, layer as int);
            let ghost base = self.layered(idx as int, layer as int);
            let mut pos: usize = 0;
            proof {
                assert(base + own.take(0) =~= base);
                self.lemma_layered_len(idx as int, layer as int);
            }
            while pos < len
                invariant
                    self.wf(),
                    idx < self.slots().len(),
                    layer <= max_layer,
                    max_layer < MAX_LAYERS,
                    own == self.nbrs(idx as int, layer as int),
                    len == own.len(),
                    base == self.layered(idx as int, layer as int),
                    base.len() <= M0 * layer,
                    own.len() <= M0,
                    pos <= len,
                    out@ == out0 + stamp_walk(base + own.take(pos as int), marks0, stamp).0,
                    marks@ == stamp_walk(base + own.take(pos as int), marks0, stamp).1,
                    pushed == stamp_walk(base + own.take(pos as int), marks0, stamp).0.len(),
                decreases len - pos,
            {
                proof {
                    if layer == 0 {
                        assert(own.len() <= M0);
                    } else {
                        assert(own.len() <= M);
                    }
                }
                let nb_opt = self.layer_neighbors[idx].neighbor_at(layer, pos);
                let ghost prefix = base + own.take(pos as int);
                proof {
                    lemma_stamp_walk_bounds(prefix, marks0, stamp);
                }
                if let Some(nb) = nb_opt {
                    proof {
                        assert(base + own.take(pos as int + 1) =~= prefix.push(nb));
                        lemma_stamp_walk_push(prefix, marks0, stamp, nb);
                    }
                    let nb_idx = nb as usize;
                    if nb_idx < marks.len() && marks[nb_idx] != stamp {
                        marks[nb_idx] = stamp;
                        out.push(nb_idx);
                        pushed += 1;
                        proof {
                            assert(out@ =~= out0 + stamp_walk(base + own.take(pos as int + 1), marks0, stamp).0);
                        }
                    }
                }
                pos += 1;
            }
            proof {
                assert(own.take(len as int) =~= own);
            }
            layer += 1;
        }
        proof {
            self.lemma_slot_of(id, idx as int);
        }
        pushed
    }
}

} // verus!
