//! Locality-sensitive hash index: bucket storage and candidate merging.
//!
//! A node is hashed (by random projections, floating-point work done by the
//! caller) to one bucket per table; the index keeps, per table, sorted bucket
//! ids with sorted member lists, and answers a query with the sorted union of
//! the query's buckets.
use vstd::prelude::*;

use crate::signal::NodeId;

verus! {

/// Number of projection hyperplanes per table (bits per bucket id).
pub const N_PROJECTIONS: usize = 8usize;

/// Number of independent hash tables.
pub const N_TABLES: usize = 4usize;

/// Identifiers strictly increase along the list.
pub open spec fn ids_increasing(s: Seq<NodeId>) -> bool {
    forall|i: int, j: int| 0 <= i < j < s.len() ==> (#[trigger] s[i]).raw() < (#[trigger] s[j]).raw()
}

/// One table: parallel sorted arrays of bucket ids and their member lists.
pub struct LshTable {
    bucket_ids: Vec<u32>,
    bucket_nodes: Vec<Vec<NodeId>>,
}

impl LshTable {
    /// Members of `bucket`, in increasing identifier order.
    pub closed spec fn members(&self, bucket: u32) -> Seq<NodeId> {
        if exists|i: int| 0 <= i < self.bucket_ids@.len() && self.bucket_ids@[i] == bucket {
            let i = choose|i: int| 0 <= i < self.bucket_ids@.len() && self.bucket_ids@[i] == bucket;
            self.bucket_nodes@[i]@
        } else {
            Seq::empty()
        }
    }

    /// Bucket ids strictly increase; one member list per bucket, each
    /// strictly increasing.
    pub closed spec fn inv(&self) -> bool {
        &&& self.bucket_nodes@.len() == self.bucket_ids@.len()
        &&& forall|i: int, j: int|
            0 <= i < j < self.bucket_ids@.len() ==> #[trigger] self.bucket_ids@[i] < #[trigger] self.bucket_ids@[j]
        &&& forall|i: int| 0 <= i < self.bucket_nodes@.len() ==> ids_increasing(#[trigger] self.bucket_nodes@[i]@)
    }

    proof fn lemma_members_at(&self, i: int)
        requires
            self.inv(),
            0 <= i < self.bucket_ids@.len(),
        ensures
            self.members(self.bucket_ids@[i]) == self.bucket_nodes@[i]@,
    {
        let b = self.bucket_ids@[i];
        let k = choose|k: int| 0 <= k < self.bucket_ids@.len() && self.bucket_ids@[k] == b;
        if k < i {
            assert(self.bucket_ids@[k] < self.bucket_ids@[i]);
        } else if k > i {
            assert(self.bucket_ids@[i] < self.bucket_ids@[k]);
        }
    }

    /// An empty table.
    pub fn new() -> (t: Self)
        ensures
            t.inv(),
            forall|b: u32| t.members(b) == Seq::<NodeId>::empty(),
    {
        LshTable { bucket_ids: Vec::new(), bucket_nodes: Vec::new() }
    }

    /// Position of `bucket`: `Ok` where it is, or `Err` where it would go.
    fn pos(&self, bucket: u32) -> (r: Result<usize, usize>)
        requires
            self.inv(),
        ensures
            r matches Ok(i) ==> i < self.bucket_ids@.len() && self.bucket_ids@[i as int] == bucket,
            r matches Err(i) ==> i <= self.bucket_ids@.len() && (forall|k: int|
                0 <= k < i ==> #[trigger] self.bucket_ids@[k] < bucket) && (forall|k: int|
                i <= k < self.bucket_ids@.len() ==> #[trigger] self.bucket_ids@[k] > bucket),
    {
        let mut lo: usize = 0;
        let mut hi: usize = self.bucket_ids.len();
        while lo < hi
            invariant
                self.inv(),
                lo <= hi <= self.bucket_ids@.len(),
                forall|k: int| 0 <= k < lo ==> #[trigger] self.bucket_ids@[k] < bucket,
                forall|k: int| hi <= k < self.bucket_ids@.len() ==> #[trigger] self.bucket_ids@[k] >= bucket,
            decreases hi - lo,
        {
            let mid = lo + (hi - lo) / 2;
            if self.bucket_ids[mid] < bucket {
                lo = mid + 1;
            } else {
                hi = mid;
            }
        }
        if lo < self.bucket_ids.len() && self.bucket_ids[lo] == bucket {
            Ok(lo)
        } else {
            proof {
                assert forall|k: int| lo <= k < self.bucket_ids@.len() implies #[trigger] self.bucket_ids@[k] > bucket by {
                    if k > lo {
                        assert(self.bucket_ids@[lo as int] < self.bucket_ids@[k]);
                    }
                }
            }
            Err(lo)
        }
    }

    /// Adds `id` to `bucket`; a node already there is not added twice.
    fn insert(&mut self, bucket: u32, id: NodeId)
        requires
            old(self).inv(),
        ensures
            final(self).inv(),
            forall|b: u32| b != bucket ==> #[trigger] final(self).members(b) == old(self).members(b),
            forall|x: NodeId|
                #[trigger] final(self).members(bucket).contains(x) == (old(self).members(bucket).contains(x) || x == id),
    {
        let ghost ids0 = self.bucket_ids@;
        let ghost nodes0 = self.bucket_nodes@;
        match self.pos(bucket) {
            Ok(i) => {
                let mut v = self.bucket_nodes.remove(i);
                proof {
                    self.lemma_members_at_old(ids0, nodes0, i as int);
                    old(self).lemma_members_at(i as int);
                    assert(old(self).members(bucket) == v@);
                }
                let ghost vstart = v@;
                let key = id.get();
                let mut lo: usize = 0;
                let mut hi: usize = v.len();
                while lo < hi
                    invariant
                        v@ == vstart,
                        ids_increasing(v@),
                        lo <= hi <= v@.len(),
                        forall|k: int| 0 <= k < lo ==> (#[trigger] v@[k]).raw() < key,
                        forall|k: int| hi <= k < v@.len() ==> (#[trigger] v@[k]).raw() >= key,
                    decreases hi - lo,
                {
                    let mid = lo + (hi - lo) / 2;
                    if v[mid].get() < key {
                        lo = mid + 1;
                    } else {
                        hi = mid;
                    }
                }
                let ghost v0 = v@;
                let present = lo < v.len() && v[lo].get() == key;
                if !present {
                    v.insert(lo, id);
                    proof {
                        assert forall|a: int, b: int| 0 <= a < b < v@.len() implies (#[trigger] v@[a]).raw() < (
                        #[trigger] v@[b]).raw() by {
                            if b < lo {
                                assert(v@[a] == v0[a] && v@[b] == v0[b]);
                            } else if b == lo {
                                assert(v@[a] == v0[a]);
                            } else if a < lo {
                                assert(v@[a] == v0[a] && v@[b] == v0[b - 1]);
                            } else if a == lo {
                                assert(v@[b] == v0[b - 1]);
                                if b - 1 > lo {
                                    assert(v0[lo as int].raw() < v0[b - 1].raw());
                                }
                            } else {
                                assert(v@[a] == v0[a - 1] && v@[b] == v0[b - 1]);
                            }
                        }
                        assert forall|x: NodeId| v@.contains(x) == (v0.contains(x) || x == id) by {
                            if v@.contains(x) {
                                let k = choose|k: int| 0 <= k < v@.len() && v@[k] == x;
                                if k < lo {
                                    assert(v0[k] == x);
                                } else if k > lo {
                                    assert(v0[k - 1] == x);
                                }
                            }
                            if v0.contains(x) {
                                let k = choose|k: int| 0 <= k < v0.len() && v0[k] == x;
                                if k < lo {
                                    assert(v@[k] == x);
                                } else {
                                    assert(v@[k + 1] == x);
                                }
                            }
                            if x == id {
                                assert(v@[lo as int] == x);
                            }
                        }
                    }
                } else {
                    proof {
                        NodeId::lemma_raw_injective(v0[lo as int], id);
                        assert(v0.contains(id));
                    }
                }
                assert(forall|x: NodeId| v@.contains(x) == (v0.contains(x) || x == id));
                let ghost vf = v@;
                self.bucket_nodes.insert(i, v);
                proof {
                    let nodes = self.bucket_nodes@;
                    assert forall|k: int| 0 <= k < ids0.len() && k != i implies nodes[k] == nodes0[k] by {}
                    assert(nodes[i as int]@ == vf);
                    self.lemma_members_after(ids0, nodes0, i as int, bucket);
                    assert forall|k: int| 0 <= k < nodes.len() implies ids_increasing(#[trigger] nodes[k]@) by {
                        if k != i {
                            assert(nodes[k] == nodes0[k]);
                        }
                    }
                    assert(self.inv());
                    assert forall|b: u32| b != bucket implies #[trigger] self.members(b) == old(self).members(b) by {}
                    assert(self.members(bucket) == vf);
                    assert(old(self).members(bucket) == vstart);
                    assert(vstart == v0);
                    assert forall|x: NodeId| #[trigger] self.members(bucket).contains(x) == (old(self).members(
                        bucket,
                    ).contains(x) || x == id) by {
                        assert(vf.contains(x) == (v0.contains(x) || x == id));
                    }
                }
            },
            Err(i) => {
                let mut v: Vec<NodeId> = Vec::new();
                v.push(id);
                self.bucket_ids.insert(i, bucket);
                self.bucket_nodes.insert(i, v);
                proof {
                    let ids = self.bucket_ids@;
                    let nodes = self.bucket_nodes@;
                    assert forall|a: int, b: int| 0 <= a < b < ids.len() implies #[trigger] ids[a] < #[trigger] ids[b] by {
                        if b < i {
                            assert(ids[a] == ids0[a] && ids[b] == ids0[b]);
                        } else if b == i {
                            assert(ids[a] == ids0[a]);
                        } else if a < i {
                            assert(ids[a] == ids0[a] && ids[b] == ids0[b - 1]);
                        } else if a == i {
                            assert(ids[b] == ids0[b - 1]);
                        } else {
                            assert(ids[a] == ids0[a - 1] && ids[b] == ids0[b - 1]);
                        }
                    }
                    assert forall|k: int| 0 <= k < nodes.len() implies ids_increasing(#[trigger] nodes[k]@) by {
                        if k < i {
                            assert(nodes[k] == nodes0[k]);
                        } else if k > i {
                            assert(nodes[k] == nodes0[k - 1]);
                        }
                    }
                    assert(self.inv());
                    self.lemma_members_at(i as int);
                    assert(!(exists|k: int| 0 <= k < ids0.len() && ids0[k] == bucket));
                    assert forall|b: u32| b != bucket implies #[trigger] self.members(b) == old(self).members(b) by {
                        if exists|k: int| 0 <= k < ids0.len() && ids0[k] == b {
                            let k = choose|k: int| 0 <= k < ids0.len() && ids0[k] == b;
                            old(self).lemma_members_at(k);
                            if k < i {
                                assert(ids[k] == b && nodes[k] == nodes0[k]);
                                self.lemma_members_at(k);
                            } else {
                                assert(ids[k + 1] == b && nodes[k + 1] == nodes0[k]);
                                self.lemma_members_at(k + 1);
                            }
                        } else {
                            if exists|k: int| 0 <= k < ids.len() && ids[k] == b {
                                let k = choose|k: int| 0 <= k < ids.len() && ids[k] == b;
                                if k < i {
                                    assert(ids0[k] == b);
                                } else if k > i {
                                    assert(ids0[k - 1] == b);
                                }
                            }
                        }
                    }
                    assert forall|x: NodeId| #[trigger] self.members(bucket).contains(x) == (old(self).members(
                        bucket,
                    ).contains(x) || x == id) by {
                        assert(nodes[i as int]@ == seq![id]);
                        if seq![id].contains(x) {
                            let k = choose|k: int| 0 <= k < 1 && seq![id][k] == x;
                        }
                        if x == id {
                            assert(seq![id][0] == x);
                        }
                    }
                }
            },
        }
    }

    proof fn lemma_members_at_old(&self, ids0: Seq<u32>, nodes0: Seq<Vec<NodeId>>, i: int)
        requires
            0 <= i < ids0.len(),
            nodes0.len() == ids0.len(),
            forall|a: int, b: int| 0 <= a < b < ids0.len() ==> #[trigger] ids0[a] < #[trigger] ids0[b],
        ensures
            (choose|k: int| 0 <= k < ids0.len() && ids0[k] == ids0[i]) == i,
    {
        let k = choose|k: int| 0 <= k < ids0.len() && ids0[k] == ids0[i];
        if k < i {
            assert(ids0[k] < ids0[i]);
        } else if k > i {
            assert(ids0[i] < ids0[k]);
        }
    }

    proof fn lemma_members_after(&self, ids0: Seq<u32>, nodes0: Seq<Vec<NodeId>>, i: int, bucket: u32)
        requires
            self.bucket_ids@ == ids0,
            0 <= i < ids0.len(),
            ids0[i] == bucket,
            nodes0.len() == ids0.len(),
            self.bucket_nodes@.len() == ids0.len(),
            forall|k: int| 0 <= k < ids0.len() && k != i ==> self.bucket_nodes@[k] == nodes0[k],
            forall|a: int, b: int| 0 <= a < b < ids0.len() ==> #[trigger] ids0[a] < #[trigger] ids0[b],
        ensures
            forall|b: u32| b != bucket ==> #[trigger] self.members(b) == (if exists|k: int|
                0 <= k < ids0.len() && ids0[k] == b {
                nodes0[choose|k: int| 0 <= k < ids0.len() && ids0[k] == b]@
            } else {
                Seq::<NodeId>::empty()
            }),
            self.members(bucket) == self.bucket_nodes@[i]@,
    {
        self.lemma_members_at_old(ids0, nodes0, i);
    }

    /// Members of `bucket`, in increasing identifier order.
    fn get(&self, bucket: u32) -> (r: Vec<NodeId>)
        requires
            self.inv(),
        ensures
            r@ == self.members(bucket),
            ids_increasing(r@),
    {
        match self.pos(bucket) {
            Ok(i) => {
                proof {
                    self.lemma_members_at(i as int);
                }
                self.bucket_nodes[i].clone()
            },
            Err(_) => Vec::new(),
        }
    }
}


/// `x` is in the bucket of some table.
pub open spec fn in_some(lists: Seq<Seq<NodeId>>, x: NodeId) -> bool {
    exists|t: int| 0 <= t < lists.len() && #[trigger] lists[t].contains(x)
}

/// Entries not yet consumed by the merge.
pub open spec fn remaining(lists: Seq<Vec<NodeId>>, cur: Seq<usize>) -> int
    decreases lists.len(),
{
    if lists.len() == 0 {
        0
    } else {
        remaining(lists.drop_last(), cur.drop_last()) + (lists.last()@.len() - cur[lists.len() - 1])
    }
}

proof fn lemma_remaining_step(lists: Seq<Vec<NodeId>>, cur: Seq<usize>, t: int)
    requires
        lists.len() == cur.len(),
        0 <= t < lists.len(),
        cur[t] < usize::MAX,
    ensures
        remaining(lists, cur.update(t, (cur[t] + 1) as usize)) == remaining(lists, cur) - 1,
    decreases lists.len(),
{
    let c1 = cur.update(t, (cur[t] + 1) as usize);
    if t < lists.len() - 1 {
        assert(c1.drop_last() =~= cur.drop_last().update(t, (cur[t] + 1) as usize));
        lemma_remaining_step(lists.drop_last(), cur.drop_last(), t);
    } else {
        assert(c1.drop_last() =~= cur.drop_last());
        assert(c1[t] == cur[t] + 1);
    }
}

proof fn lemma_remaining_nonneg(lists: Seq<Vec<NodeId>>, cur: Seq<usize>)
    requires
        lists.len() == cur.len(),
        forall|t: int| 0 <= t < lists.len() ==> cur[t] <= (#[trigger] lists[t])@.len(),
    ensures
        remaining(lists, cur) >= 0,
    decreases lists.len(),
{
    if lists.len() > 0 {
        lemma_remaining_nonneg(lists.drop_last(), cur.drop_last());
        assert(cur[lists.len() - 1] <= lists[lists.len() - 1]@.len());
    }
}

/// Locality-sensitive hash index over `N_TABLES` independent tables.
pub struct CliffordHashTable {
    tables: Vec<LshTable>,
}

impl CliffordHashTable {
    /// Members of bucket `b` of table `t`.
    pub closed spec fn members(&self, t: int, b: u32) -> Seq<NodeId> {
        self.tables@[t].members(b)
    }

    /// `x` is returned for a query with signatures `buckets`.
    pub open spec fn is_candidate(&self, buckets: [u32; 4], x: NodeId) -> bool {
        exists|t: int| 0 <= t < N_TABLES && #[trigger] self.members(t, buckets@[t]).contains(x)
    }

    /// `after` is `before` with `id` added to bucket `buckets[t]` of each table `t`.
    pub open spec fn inserted(before: Self, after: Self, id: NodeId, buckets: [u32; 4]) -> bool {
        forall|t: int, b: u32, x: NodeId|
            0 <= t < N_TABLES ==> #[trigger] after.members(t, b).contains(x) == (before.members(t, b).contains(x) || (
            b == buckets@[t] && x == id))
    }

    /// One well-formed table per hash.
    pub closed spec fn inv(&self) -> bool {
        &&& self.tables@.len() == N_TABLES
        &&& forall|t: int| 0 <= t < N_TABLES ==> (#[trigger] self.tables@[t]).inv()
    }

    /// An empty index.
    pub fn new() -> (h: Self)
        ensures
            h.inv(),
            forall|t: int, b: u32| 0 <= t < N_TABLES ==> #[trigger] h.members(t, b) == Seq::<NodeId>::empty(),
    {
        let mut tables: Vec<LshTable> = Vec::new();
        let mut k: usize = 0;
        while k < N_TABLES
            invariant
                k <= N_TABLES,
                tables@.len() == k,
                forall|t: int| 0 <= t < k ==> (#[trigger] tables@[t]).inv(),
                forall|t: int, b: u32| 0 <= t < k ==> #[trigger] tables@[t].members(b) == Seq::<NodeId>::empty(),
            decreases N_TABLES - k,
        {
            tables.push(LshTable::new());
            k += 1;
        }
        CliffordHashTable { tables }
    }

    /// Inserts `id` into bucket `buckets[t]` of each table `t`; the buckets
    /// are the node's projection signatures.
    pub fn insert(&mut self, id: NodeId, buckets: [u32; 4])
        requires
            old(self).inv(),
        ensures
            final(self).inv(),
            Self::inserted(*old(self), *final(self), id, buckets),
    {
        let mut t: usize = 0;
        while t < N_TABLES
            invariant
                t <= N_TABLES,
                self.inv(),
                forall|u: int, b: u32, x: NodeId|
                    0 <= u < N_TABLES ==> #[trigger] self.members(u, b).contains(x) == (old(self).members(
                        u,
                        b,
                    ).contains(x) || (u < t && b == buckets@[u] && x == id)),
            decreases N_TABLES - t,
        {
            let ghost before = self.tables@;
            let ghost s0 = *self;
            let mut tbl = self.tables.remove(t);
            tbl.insert(buckets[t], id);
            self.tables.insert(t, tbl);
            proof {
                assert forall|u: int| 0 <= u < N_TABLES && u != t implies #[trigger] self.tables@[u] == before[u] by {}
                assert forall|u: int| 0 <= u < N_TABLES implies (#[trigger] self.tables@[u]).inv() by {}
                assert forall|u: int, b: u32, x: NodeId|
                    0 <= u < N_TABLES implies #[trigger] self.members(u, b).contains(x) == (old(self).members(
                        u,
                        b,
                    ).contains(x) || (u < t + 1 && b == buckets@[u] && x == id)) by {
                    assert(s0.members(u, b).contains(x) == (old(self).members(u, b).contains(x) || (u < t
                        && b == buckets@[u] && x == id)));
                    if u != t {
                        assert(self.tables@[u] == before[u]);
                    } else {
                        if b != buckets@[u] {
                            assert(self.tables@[u].members(b) == before[u].members(b));
                        }
                    }
                }
            }
            t += 1;
        }
    }

    /// Candidate nodes for a query with the given bucket signatures: the
    /// union of its buckets over all tables, in increasing identifier order
    /// and without repeats, by a k-way merge of the sorted buckets.
    pub fn candidates(&self, buckets: [u32; 4]) -> (r: Vec<NodeId>)
        requires
            self.inv(),
        ensures
            ids_increasing(r@),
            forall|x: NodeId| r@.contains(x) <==> self.is_candidate(buckets, x),
    {
        let mut lists: Vec<Vec<NodeId>> = Vec::new();
        let mut t: usize = 0;
        while t < N_TABLES
            invariant
                t <= N_TABLES,
                self.inv(),
                lists@.len() == t,
                forall|u: int| 0 <= u < t ==> (#[trigger] lists@[u])@ == self.members(u, buckets@[u]),
                forall|u: int| 0 <= u < t ==> ids_increasing((#[trigger] lists@[u])@),
            decreases N_TABLES - t,
        {
            let l = self.tables[t].get(buckets[t]);
            lists.push(l);
            t += 1;
        }
        let mut cursors: Vec<usize> = vec![0usize; N_TABLES];
        let mut out: Vec<NodeId> = Vec::new();
        let mut last: Option<NodeId> = None;
        proof {
            assert forall|x: NodeId| out@.contains(x) <==> exists|u: int|
                0 <= u < N_TABLES && #[trigger] lists@[u]@.take(cursors@[u] as int).contains(x) by {
                if exists|u: int| 0 <= u < N_TABLES && #[trigger] lists@[u]@.take(cursors@[u] as int).contains(x) {
                    let u = choose|u: int| 0 <= u < N_TABLES && #[trigger] lists@[u]@.take(cursors@[u] as int).contains(x);
                    assert(lists@[u]@.take(0).len() == 0);
                }
            }
            lemma_remaining_nonneg(lists@, cursors@);
        }
        loop
            invariant
                lists@.len() == N_TABLES,
                cursors@.len() == N_TABLES,
                forall|u: int| 0 <= u < N_TABLES ==> ids_increasing((#[trigger] lists@[u])@),
                forall|u: int| 0 <= u < N_TABLES ==> cursors@[u] <= (#[trigger] lists@[u])@.len(),
                ids_increasing(out@),
                forall|x: NodeId| out@.contains(x) <==> exists|u: int|
                    0 <= u < N_TABLES && #[trigger] lists@[u]@.take(cursors@[u] as int).contains(x),
                last == (if out@.len() > 0 { Some(out@.last()) } else { None::<NodeId> }),
                out@.len() > 0 ==> forall|u: int, k: int|
                    0 <= u < N_TABLES && cursors@[u] <= k < lists@[u]@.len() ==> (#[trigger] lists@[u]@[k]).raw()
                        >= out@.last().raw(),
                forall|u: int| 0 <= u < N_TABLES ==> (#[trigger] lists@[u])@ == self.members(u, buckets@[u]),
                remaining(lists@, cursors@) >= 0,
            ensures
                forall|u: int| 0 <= u < N_TABLES ==> cursors@[u] == (#[trigger] lists@[u])@.len(),
                ids_increasing(out@),
                forall|x: NodeId| out@.contains(x) <==> exists|u: int|
                    0 <= u < N_TABLES && #[trigger] lists@[u]@.take(cursors@[u] as int).contains(x),
                forall|u: int| 0 <= u < N_TABLES ==> (#[trigger] lists@[u])@ == self.members(u, buckets@[u]),
            decreases remaining(lists@, cursors@),
        {
            let mut best_t: usize = N_TABLES;
            let mut best: NodeId = NodeId::invalid();
            let mut u: usize = 0;
            while u < N_TABLES
                invariant
                    u <= N_TABLES,
                    lists@.len() == N_TABLES,
                    cursors@.len() == N_TABLES,
                    forall|w: int| 0 <= w < N_TABLES ==> cursors@[w] <= (#[trigger] lists@[w])@.len(),
                    best_t == N_TABLES ==> forall|w: int| 0 <= w < u ==> cursors@[w] == (#[trigger] lists@[w])@.len(),
                    best_t < N_TABLES ==> best_t < u && cursors@[best_t as int] < lists@[best_t as int]@.len()
                        && best == lists@[best_t as int]@[cursors@[best_t as int] as int],
                    best_t < N_TABLES ==> forall|w: int|
                        0 <= w < u && cursors@[w] < (#[trigger] lists@[w])@.len() ==> best.raw() <= lists@[w]@[cursors@[w] as int].raw(),
                    best_t <= N_TABLES,
                decreases N_TABLES - u,
            {
                let c = cursors[u];
                if c < lists[u].len() {
                    let cand = lists[u][c];
                    if best_t == N_TABLES || cand.get() < best.get() {
                        best_t = u;
                        best = cand;
                    }
                }
                u += 1;
            }
            if best_t == N_TABLES {
                break;
            }
            let ghost c0 = cursors@;
            let ghost o0 = out@;
            let bc = cursors[best_t];
            let blen = lists[best_t].len();
            cursors.set(best_t, bc + 1);
            proof {
                lemma_remaining_step(lists@, c0, best_t as int);
                lemma_remaining_nonneg(lists@, cursors@);
                assert(cursors@ == c0.update(best_t as int, (c0[best_t as int] + 1) as usize));
                // every remaining entry is at least `best`
                assert forall|w: int, k: int| 0 <= w < N_TABLES && c0[w] <= k < lists@[w]@.len() implies best.raw()
                    <= (#[trigger] lists@[w]@[k]).raw() by {
                    if k > c0[w] {
                        assert(lists@[w]@[c0[w] as int].raw() < lists@[w]@[k].raw());
                    }
                }
                assert forall|w: int| 0 <= w < N_TABLES implies #[trigger] lists@[w]@.take(cursors@[w] as int)
                    =~= if w == best_t as int {
                    lists@[w]@.take(c0[w] as int).push(best)
                } else {
                    lists@[w]@.take(c0[w] as int)
                } by {}
            }
            let dup = match last {
                Some(l) => l.get() == best.get(),
                None => false,
            };
            if dup {
                proof {
                    NodeId::lemma_raw_injective(o0.last(), best);
                    assert(o0.contains(best)) by {
                        assert(o0[o0.len() - 1] == best);
                    }
                    assert forall|x: NodeId| out@.contains(x) <==> exists|w: int|
                        0 <= w < N_TABLES && #[trigger] lists@[w]@.take(cursors@[w] as int).contains(x) by {
                        if exists|w: int| 0 <= w < N_TABLES && #[trigger] lists@[w]@.take(cursors@[w] as int).contains(x) {
                            let w = choose|w: int| 0 <= w < N_TABLES && #[trigger] lists@[w]@.take(cursors@[w] as int).contains(x);
                            let s = lists@[w]@.take(cursors@[w] as int);
                            let k = choose|k: int| 0 <= k < s.len() && s[k] == x;
                            if w == best_t as int && k == s.len() - 1 {
                                assert(x == best);
                            } else {
                                assert(lists@[w]@.take(c0[w] as int)[k] == x);
                                assert(lists@[w]@.take(c0[w] as int).contains(x));
                            }
                        }
                        if out@.contains(x) {
                            let w = choose|w: int| 0 <= w < N_TABLES && #[trigger] lists@[w]@.take(c0[w] as int).contains(x);
                            let s = lists@[w]@.take(c0[w] as int);
                            let k = choose|k: int| 0 <= k < s.len() && s[k] == x;
                            assert(lists@[w]@.take(cursors@[w] as int)[k] == x);
                            assert(lists@[w]@.take(cursors@[w] as int).contains(x));
                        }
                    }
                }
            } else {
                proof {
                    if o0.len() > 0 {
                        assert(best.raw() >= o0.last().raw());
                        NodeId::lemma_raw_injective(o0.last(), best);
                    }
                }
                out.push(best);
                last = Some(best);
                proof {
                    assert(out@ == o0.push(best));
                    assert forall|a: int, b: int| 0 <= a < b < out@.len() implies (#[trigger] out@[a]).raw() < (
                    #[trigger] out@[b]).raw() by {
                        if b < o0.len() {
                            assert(out@[a] == o0[a] && out@[b] == o0[b]);
                        } else {
                            assert(out@[a] == o0[a]);
                            if a < o0.len() - 1 {
                                assert(o0[a].raw() < o0[o0.len() - 1].raw());
                            }
                        }
                    }
                    assert forall|x: NodeId| out@.contains(x) <==> exists|w: int|
                        0 <= w < N_TABLES && #[trigger] lists@[w]@.take(cursors@[w] as int).contains(x) by {
                        if exists|w: int| 0 <= w < N_TABLES && #[trigger] lists@[w]@.take(cursors@[w] as int).contains(x) {
                            let w = choose|w: int| 0 <= w < N_TABLES && #[trigger] lists@[w]@.take(cursors@[w] as int).contains(x);
                            let s = lists@[w]@.take(cursors@[w] as int);
                            let k = choose|k: int| 0 <= k < s.len() && s[k] == x;
                            if w == best_t as int && k == s.len() - 1 {
                                assert(out@[o0.len() as int] == x);
                            } else {
                                assert(lists@[w]@.take(c0[w] as int)[k] == x);
                                assert(lists@[w]@.take(c0[w] as int).contains(x));
                                assert(o0.contains(x));
                                let j = choose|j: int| 0 <= j < o0.len() && o0[j] == x;
                                assert(out@[j] == x);
                            }
                        }
                        if out@.contains(x) {
                            let j = choose|j: int| 0 <= j < out@.len() && out@[j] == x;
                            if j < o0.len() {
                                assert(o0[j] == x);
                                assert(o0.contains(x));
                                let w = choose|w: int| 0 <= w < N_TABLES && #[trigger] lists@[w]@.take(c0[w] as int).contains(x);
                                let s = lists@[w]@.take(c0[w] as int);
                                let k = choose|k: int| 0 <= k < s.len() && s[k] == x;
                                assert(lists@[w]@.take(cursors@[w] as int)[k] == x);
                                assert(lists@[w]@.take(cursors@[w] as int).contains(x));
                            } else {
                                let w = best_t as int;
                                let s = lists@[w]@.take(cursors@[w] as int);
                                assert(s[s.len() - 1] == x);
                                assert(s.contains(x));
                            }
                        }
                    }
                }
            }
        }
        proof {
            assert forall|x: NodeId| out@.contains(x) <==> exists|t: int|
                0 <= t < N_TABLES && #[trigger] self.members(t, buckets@[t]).contains(x) by {
                assert forall|w: int| 0 <= w < N_TABLES implies #[trigger] lists@[w]@.take(cursors@[w] as int)
                    =~= lists@[w]@ by {}
                if exists|t: int| 0 <= t < N_TABLES && #[trigger] self.members(t, buckets@[t]).contains(x) {
                    let t = choose|t: int| 0 <= t < N_TABLES && #[trigger] self.members(t, buckets@[t]).contains(x);
                    assert(lists@[t]@.take(cursors@[t] as int).contains(x));
                }
                if out@.contains(x) {
                    let w = choose|w: int| 0 <= w < N_TABLES && #[trigger] lists@[w]@.take(cursors@[w] as int).contains(x);
                    assert(self.members(w, buckets@[w]).contains(x));
                }
            }
        }
        out
    }
}

/// An inserted node is a candidate for its own bucket signatures, and an
/// insertion keeps every earlier candidate of every query.
pub proof fn lemma_insert_then_candidates(
    before: CliffordHashTable,
    after: CliffordHashTable,
    id: NodeId,
    buckets: [u32; 4],
    query: [u32; 4],
    x: NodeId,
)
    requires
        CliffordHashTable::inserted(before, after, id, buckets),
    ensures
        after.is_candidate(buckets, id),
        before.is_candidate(query, x) ==> after.is_candidate(query, x),
{
    assert(after.members(0, buckets@[0]).contains(id));
    if before.is_candidate(query, x) {
        let t = choose|t: int| 0 <= t < N_TABLES && #[trigger] before.members(t, query@[t]).contains(x);
        assert(after.members(t, query@[t]).contains(x));
    }
}

} // verus!
