//! Per-node adjacency of the HNSW graph.
//!
//! Each node keeps, per layer, the internal indices of its neighbours in
//! ascending order and without repetition. On layer 0 every entry is packed
//! together with the neighbour's position in the vector slab
//! (`neighbour << 32 | slab`), and the slab positions are summarised by
//! block of eight: one `(block, lane mask)` pair per block that holds at
//! least one of them, sorted by block.
use vstd::prelude::*;
use vstd::relations::injective_on;
use vstd::set_lib::{lemma_int_range, lemma_len_subset, lemma_map_size, set_int_range};

use crate::buffers::{group_items, packed_items, upper_items, GroupList, PackedList, UpperList};

verus! {

/// Highest number of layers of the graph.
pub const MAX_LAYERS: usize = 16;

/// Neighbour budget of the upper layers.
pub const M: usize = 16;

/// Neighbour budget of layer 0.
pub const M0: usize = 32;

/// Neighbour budget of a layer: `M0` on layer 0, `M` above it.
pub open spec fn layer_budget(layer: usize) -> usize {
    if layer == 0 {
        M0
    } else {
        M
    }
}

/// Neighbour budget of a layer: `M0` on layer 0, `M` above it.
pub fn layer_max_neighbors(layer: usize) -> (r: usize)
    ensures
        r == layer_budget(layer),
{
    if layer == 0 {
        M0
    } else {
        M
    }
}

// ----------------------------------------------------------------------------
// Packed layer-0 words and slab blocks
// ----------------------------------------------------------------------------

/// The neighbour index held in the high half of a packed word.
pub open spec fn neighbor_of(p: u64) -> u32 {
    (p >> 32u64) as u32
}

/// The slab position held in the low half of a packed word.
pub open spec fn slab_of(p: u64) -> u32 {
    p as u32
}

/// The packed word of a neighbour and its slab position.
pub open spec fn pack(n: u32, s: u32) -> u64 {
    ((n as u64) << 32u64) | (s as u64)
}

/// The block of eight slab positions that holds `s`.
pub open spec fn block_of(s: u32) -> u32 {
    s >> 3u32
}

/// The lane of `s` within its block.
pub open spec fn lane_of(s: u32) -> u32 {
    s & 7u32
}

/// Whether bit `lane` of a lane mask is set.
pub open spec fn lane_bit(mask: u8, lane: u32) -> bool {
    ((mask as u32) >> lane) & 1u32 == 1u32
}

/// Whether some block group marks slab position `s`.
pub open spec fn covers(groups: Seq<(u32, u8)>, s: u32) -> bool {
    exists|i: int|
        #![trigger groups[i]]
        0 <= i < groups.len() && groups[i].0 == block_of(s) && lane_bit(groups[i].1, lane_of(s))
}

/// Block groups sorted by block without repetition, each with a non-empty
/// mask and a block that some 32-bit slab position belongs to.
pub open spec fn groups_wf(groups: Seq<(u32, u8)>) -> bool {
    &&& forall|i: int, j: int| 0 <= i < j < groups.len() ==> groups[i].0 < groups[j].0
    &&& forall|i: int| 0 <= i < groups.len() ==> groups[i].1 != 0u8
    &&& forall|i: int| 0 <= i < groups.len() ==> groups[i].0 < 0x2000_0000u32
}

/// The neighbour indices of packed words.
pub open spec fn neighbors_of(w: Seq<u64>) -> Seq<u32> {
    w.map_values(|p: u64| neighbor_of(p))
}

/// The slab positions of packed words.
pub open spec fn slabs_of(w: Seq<u64>) -> Seq<u32> {
    w.map_values(|p: u64| slab_of(p))
}

/// The `(neighbour, slab position)` pairs of packed words.
pub open spec fn entries_of(w: Seq<u64>) -> Seq<(u32, u32)> {
    w.map_values(|p: u64| (neighbor_of(p), slab_of(p)))
}

/// A sequence in strictly ascending order.
pub open spec fn strictly_ascending(s: Seq<u32>) -> bool {
    forall|i: int, j: int| 0 <= i < j < s.len() ==> s[i] < s[j]
}

/// `s` without `x` (unchanged when `x` is absent).
pub open spec fn without(s: Seq<u32>, x: u32) -> Seq<u32> {
    if s.contains(x) {
        s.remove(rank(s, x) as int)
    } else {
        s
    }
}

/// The number of elements of `s` below `x`: where `x` goes in a sorted sequence.
pub open spec fn rank(s: Seq<u32>, x: u32) -> nat
    decreases s.len(),
{
    if s.len() == 0 {
        0
    } else {
        rank(s.drop_last(), x) + if s.last() < x {
            1nat
        } else {
            0nat
        }
    }
}

proof fn lemma_pack(n: u32, s: u32)
    ensures
        neighbor_of(pack(n, s)) == n,
        slab_of(pack(n, s)) == s,
{
    assert((((((n as u64) << 32u64) | (s as u64)) >> 32u64) as u32) == n && ((((n as u64)
        << 32u64) | (s as u64)) as u32) == s) by (bit_vector);
}

proof fn lemma_block_lane(s: u32, t: u32)
    ensures
        lane_of(s) < 8,
        block_of(s) < 0x2000_0000u32,
        block_of(s) == block_of(t) && lane_of(s) == lane_of(t) ==> s == t,
{
    assert(s & 7u32 < 8u32 && s >> 3u32 < 0x2000_0000u32 && ((s >> 3u32 == t >> 3u32 && s & 7u32
        == t & 7u32) ==> s == t)) by (bit_vector);
}

proof fn lemma_compose(b: u32, l: u32)
    requires
        b < 0x2000_0000u32,
        l < 8,
    ensures
        block_of((b << 3u32) | l) == b,
        lane_of((b << 3u32) | l) == l,
{
    assert(((b << 3u32) | l) >> 3u32 == b && ((b << 3u32) | l) & 7u32 == l) by (bit_vector)
        requires
            b < 0x2000_0000u32,
            l < 8,
    ;
}

proof fn lemma_mask_lane(m: u8) -> (l: u32)
    requires
        m != 0u8,
    ensures
        l < 8,
        lane_bit(m, l),
{
    assert(((m as u32) >> 0u32) & 1u32 == 1u32 || ((m as u32) >> 1u32) & 1u32 == 1u32 || ((m as u32)
        >> 2u32) & 1u32 == 1u32 || ((m as u32) >> 3u32) & 1u32 == 1u32 || ((m as u32) >> 4u32) & 1u32
        == 1u32 || ((m as u32) >> 5u32) & 1u32 == 1u32 || ((m as u32) >> 6u32) & 1u32 == 1u32 || ((m as u32)
        >> 7u32) & 1u32 == 1u32) by (bit_vector)
        requires
            m != 0u8,
    ;
    if lane_bit(m, 0) {
        0
    } else if lane_bit(m, 1) {
        1
    } else if lane_bit(m, 2) {
        2
    } else if lane_bit(m, 3) {
        3
    } else if lane_bit(m, 4) {
        4
    } else if lane_bit(m, 5) {
        5
    } else if lane_bit(m, 6) {
        6
    } else {
        7
    }
}

proof fn lemma_lane_set(m: u8, lane: u32, l: u32)
    requires
        lane < 8,
        l < 8,
    ensures
        lane_bit(m | (1u8 << (lane as u8)), l) == (lane_bit(m, l) || l == lane),
        lane_bit(m & !(1u8 << (lane as u8)), l) == (lane_bit(m, l) && l != lane),
        lane_bit(1u8 << (lane as u8), l) == (l == lane),
        m | (1u8 << (lane as u8)) != 0u8,
        (1u8 << (lane as u8)) != 0u8,
        (m & !(1u8 << (lane as u8))) == 0u8 && lane_bit(m, l) ==> l == lane,
{
    assert({
        &&& ((((m | (1u8 << (lane as u8))) as u32) >> l) & 1u32 == 1u32 <==> (((m as u32) >> l)
            & 1u32 == 1u32 || l == lane))
        &&& ((((m & !(1u8 << (lane as u8))) as u32) >> l) & 1u32 == 1u32 <==> (((m as u32) >> l)
            & 1u32 == 1u32 && l != lane))
        &&& (((((1u8 << (lane as u8)) as u32) >> l) & 1u32 == 1u32) <==> l == lane)
        &&& m | (1u8 << (lane as u8)) != 0u8
        &&& (1u8 << (lane as u8)) != 0u8
        &&& (((m & !(1u8 << (lane as u8))) == 0u8 && ((m as u32) >> l) & 1u32 == 1u32) ==> l
            == lane)
    }) by (bit_vector)
        requires
            lane < 8,
            l < 8,
    ;
}

/// The rank of a value is a position of the sequence or its end.
pub proof fn lemma_rank_bound(s: Seq<u32>, x: u32)
    ensures
        rank(s, x) <= s.len(),
    decreases s.len(),
{
    if s.len() > 0 {
        lemma_rank_bound(s.drop_last(), x);
    }
}

/// In an ascending sequence, the rank of a member is its position.
pub proof fn lemma_rank_member(s: Seq<u32>, x: u32)
    requires
        strictly_ascending(s),
        s.contains(x),
    ensures
        rank(s, x) < s.len(),
        s[rank(s, x) as int] == x,
{
    let p = choose|p: int| 0 <= p < s.len() && s[p] == x;
    assert forall|i: int| p <= i < s.len() implies s[i] >= x by {
        if i > p {
            assert(s[p] < s[i]);
        }
    }
    lemma_rank(s, x, p);
}

/// Taking a value out of an ascending sequence keeps it ascending and
/// drops exactly that value.
pub proof fn lemma_without(s: Seq<u32>, x: u32)
    requires
        strictly_ascending(s),
    ensures
        strictly_ascending(without(s, x)),
        forall|y: u32| #[trigger] without(s, x).contains(y) <==> (s.contains(y) && y != x),
{
    if s.contains(x) {
        lemma_rank_member(s, x);
        let p = rank(s, x) as int;
        lemma_remove_ascending(s, p);
        let t = s.remove(p);
        assert forall|y: u32| #[trigger] t.contains(y) <==> (s.contains(y) && y != x) by {
            if t.contains(y) {
                let k = choose|k: int| 0 <= k < t.len() && t[k] == y;
                if k < p {
                    assert(s[k] == y && s[k] < s[p]);
                } else {
                    assert(s[k + 1] == y && s[p] < s[k + 1]);
                }
            }
            if s.contains(y) && y != x {
                let k = choose|k: int| 0 <= k < s.len() && s[k] == y;
                if k < p {
                    assert(t[k] == y);
                } else {
                    assert(k != p);
                    assert(t[k - 1] == y);
                }
            }
        }
    }
}

proof fn lemma_rank(s: Seq<u32>, x: u32, pos: int)
    requires
        0 <= pos <= s.len(),
        forall|i: int| 0 <= i < pos ==> s[i] < x,
        forall|i: int| pos <= i < s.len() ==> s[i] >= x,
    ensures
        rank(s, x) == pos,
    decreases s.len(),
{
    if s.len() > 0 {
        let p = if pos == s.len() {
            pos - 1
        } else {
            pos
        };
        lemma_rank(s.drop_last(), x, p);
    }
}

/// Where `key` is, or would go, among strictly ascending keys.
fn search_u32(keys: &[u32], key: u32) -> (r: Result<usize, usize>)
    requires
        strictly_ascending(keys@),
    ensures
        r matches Ok(pos) ==> pos < keys@.len() && keys@[pos as int] == key,
        r matches Err(pos) ==> pos <= keys@.len() && !keys@.contains(key),
        r matches Err(pos) ==> forall|i: int| 0 <= i < pos ==> keys@[i] < key,
        r matches Err(pos) ==> forall|i: int| pos <= i < keys@.len() ==> keys@[i] > key,
{
    let mut lo: usize = 0;
    let mut hi: usize = keys.len();
    while lo < hi
        invariant
            lo <= hi <= keys@.len(),
            strictly_ascending(keys@),
            forall|i: int| 0 <= i < lo ==> keys@[i] < key,
            forall|i: int| hi <= i < keys@.len() ==> keys@[i] > key,
        decreases hi - lo,
    {
        let mid = lo + (hi - lo) / 2;
        let k = keys[mid];
        if k == key {
            return Ok(mid);
        } else if k < key {
            lo = mid + 1;
        } else {
            hi = mid;
        }
    }
    Err(lo)
}

/// Where `neighbour` is, or would go, among packed words ascending by neighbour.
fn search_packed(words: &[u64], neighbor: u32) -> (r: Result<usize, usize>)
    requires
        strictly_ascending(neighbors_of(words@)),
    ensures
        r matches Ok(pos) ==> pos < words@.len() && neighbor_of(words@[pos as int]) == neighbor,
        r matches Err(pos) ==> pos <= words@.len(),
        r matches Err(pos) ==> forall|i: int| 0 <= i < pos ==> neighbor_of(words@[i]) < neighbor,
        r matches Err(pos) ==> forall|i: int|
            pos <= i < words@.len() ==> neighbor_of(words@[i]) > neighbor,
{
    let ghost keys = neighbors_of(words@);
    let mut lo: usize = 0;
    let mut hi: usize = words.len();
    while lo < hi
        invariant
            lo <= hi <= words@.len(),
            keys == neighbors_of(words@),
            strictly_ascending(keys),
            forall|i: int| 0 <= i < lo ==> neighbor_of(words@[i]) < neighbor,
            forall|i: int| hi <= i < words@.len() ==> neighbor_of(words@[i]) > neighbor,
        decreases hi - lo,
    {
        let mid = lo + (hi - lo) / 2;
        let k = NodeAdj::unpack_layer0_neighbor(words[mid]);
        assert(keys[mid as int] == k);
        if k == neighbor {
            return Ok(mid);
        } else if k < neighbor {
            proof {
                assert forall|i: int| 0 <= i < mid + 1 implies neighbor_of(words@[i]) < neighbor by {
                    if i < mid {
                        assert(keys[i] < keys[mid as int]);
                    }
                }
            }
            lo = mid + 1;
        } else {
            proof {
                assert forall|i: int| mid <= i < words@.len() implies neighbor_of(words@[i])
                    > neighbor by {
                    if i > mid {
                        assert(keys[mid as int] < keys[i]);
                    }
                }
            }
            hi = mid;
        }
    }
    Err(lo)
}

/// Where `block` is, or would go, among block groups.
fn search_groups(groups: &[(u32, u8)], block: u32) -> (r: Result<usize, usize>)
    requires
        groups_wf(groups@),
    ensures
        r matches Ok(pos) ==> pos < groups@.len() && groups@[pos as int].0 == block,
        r matches Err(pos) ==> pos <= groups@.len(),
        r matches Err(pos) ==> forall|i: int| 0 <= i < pos ==> groups@[i].0 < block,
        r matches Err(pos) ==> forall|i: int| pos <= i < groups@.len() ==> groups@[i].0 > block,
{
    let mut lo: usize = 0;
    let mut hi: usize = groups.len();
    while lo < hi
        invariant
            lo <= hi <= groups@.len(),
            groups_wf(groups@),
            forall|i: int| 0 <= i < lo ==> groups@[i].0 < block,
            forall|i: int| hi <= i < groups@.len() ==> groups@[i].0 > block,
        decreases hi - lo,
    {
        let mid = lo + (hi - lo) / 2;
        let k = groups[mid].0;
        if k == block {
            return Ok(mid);
        } else if k < block {
            lo = mid + 1;
        } else {
            hi = mid;
        }
    }
    Err(lo)
}

/// Adjacency of one node across all its layers.
#[derive(Clone)]
pub struct NodeAdj {
    layer0: PackedList,
    layer0_groups: GroupList,
    upper: Option<Vec<UpperList>>,
}

proof fn lemma_insert_ascending(s: Seq<u32>, pos: int, x: u32)
    requires
        strictly_ascending(s),
        0 <= pos <= s.len(),
        forall|i: int| 0 <= i < pos ==> s[i] < x,
        forall|i: int| pos <= i < s.len() ==> s[i] > x,
    ensures
        strictly_ascending(s.insert(pos, x)),
{
    let t = s.insert(pos, x);
    assert forall|i: int, j: int| 0 <= i < j < t.len() implies t[i] < t[j] by {
        if j < pos {
        } else if j == pos {
        } else if i < pos {
            assert(t[j] == s[j - 1]);
        } else if i == pos {
            assert(t[j] == s[j - 1]);
        } else {
            assert(t[i] == s[i - 1] && t[j] == s[j - 1]);
        }
    }
}

proof fn lemma_words_insert(w: Seq<u64>, pos: int, n: u32, sl: u32)
    requires
        0 <= pos <= w.len(),
    ensures
        neighbors_of(w.insert(pos, pack(n, sl))) == neighbors_of(w).insert(pos, n),
        slabs_of(w.insert(pos, pack(n, sl))) == slabs_of(w).insert(pos, sl),
        entries_of(w.insert(pos, pack(n, sl))) == entries_of(w).insert(pos, (n, sl)),
{
    lemma_pack(n, sl);
    assert(neighbors_of(w.insert(pos, pack(n, sl))) =~= neighbors_of(w).insert(pos, n));
    assert(slabs_of(w.insert(pos, pack(n, sl))) =~= slabs_of(w).insert(pos, sl));
    assert(entries_of(w.insert(pos, pack(n, sl))) =~= entries_of(w).insert(pos, (n, sl)));
}

proof fn lemma_words_remove(w: Seq<u64>, pos: int)
    requires
        0 <= pos < w.len(),
    ensures
        neighbors_of(w.remove(pos)) == neighbors_of(w).remove(pos),
        slabs_of(w.remove(pos)) == slabs_of(w).remove(pos),
        entries_of(w.remove(pos)) == entries_of(w).remove(pos),
{
    assert(neighbors_of(w.remove(pos)) =~= neighbors_of(w).remove(pos));
    assert(slabs_of(w.remove(pos)) =~= slabs_of(w).remove(pos));
    assert(entries_of(w.remove(pos)) =~= entries_of(w).remove(pos));
}

proof fn lemma_remove_ascending(s: Seq<u32>, pos: int)
    requires
        strictly_ascending(s),
        0 <= pos < s.len(),
    ensures
        strictly_ascending(s.remove(pos)),
{
    let t = s.remove(pos);
    assert forall|i: int, j: int| 0 <= i < j < t.len() implies t[i] < t[j] by {
        if j < pos {
        } else if i < pos {
            assert(t[j] == s[j + 1]);
        } else {
            assert(t[i] == s[i + 1] && t[j] == s[j + 1]);
        }
    }
}

impl NodeAdj {
    /// The packed layer-0 words, in storage order.
    pub closed spec fn words(self) -> Seq<u64> {
        packed_items(self.layer0)
    }

    /// The layer-0 block groups, in storage order.
    pub closed spec fn groups(self) -> Seq<(u32, u8)> {
        group_items(self.layer0_groups)
    }

    /// The upper-layer neighbour lists, layer 1 first.
    pub closed spec fn upper_lists(self) -> Seq<Seq<u32>> {
        match self.upper {
            Some(v) => v@.map_values(|l: UpperList| upper_items(l)),
            None => Seq::empty(),
        }
    }

    /// The layer-0 entries as `(neighbour, slab position)` pairs.
    pub open spec fn layer0_entries(self) -> Seq<(u32, u32)> {
        entries_of(self.words())
    }

    /// The slab positions of the layer-0 entries.
    pub open spec fn slabs(self) -> Seq<u32> {
        slabs_of(self.words())
    }

    /// The neighbours at a layer (none at a layer the node does not reach).
    pub open spec fn neighbors(self, layer: int) -> Seq<u32> {
        if layer == 0 {
            neighbors_of(self.words())
        } else if 1 <= layer <= self.upper_lists().len() {
            self.upper_lists()[layer - 1]
        } else {
            Seq::empty()
        }
    }

    /// Well-formedness: every layer ascending without repetition, distinct
    /// slab positions on layer 0, and block groups that mark exactly the
    /// slab positions of layer 0.
    pub open spec fn wf(self) -> bool {
        &&& forall|layer: int| strictly_ascending(#[trigger] self.neighbors(layer))
        &&& forall|i: int, j: int|
            0 <= i < j < self.slabs().len() ==> self.slabs()[i] != self.slabs()[j]
        &&& groups_wf(self.groups())
        &&& forall|s: u32| covers(self.groups(), s) <==> self.slabs().contains(s)
    }

    /// Packs a neighbour index and its slab position into one word.
    pub fn pack_layer0(neighbor_idx: u32, slab_idx: u32) -> (p: u64)
        ensures
            p == pack(neighbor_idx, slab_idx),
            neighbor_of(p) == neighbor_idx,
            slab_of(p) == slab_idx,
    {
        proof {
            lemma_pack(neighbor_idx, slab_idx);
        }
        ((neighbor_idx as u64) << 32u64) | (slab_idx as u64)
    }

    /// The neighbour index of a packed word.
    pub fn unpack_layer0_neighbor(packed: u64) -> (n: u32)
        ensures
            n == neighbor_of(packed),
    {
        (packed >> 32u64) as u32
    }

    /// The slab position of a packed word.
    pub fn unpack_layer0_slab(packed: u64) -> (s: u32)
        ensures
            s == slab_of(packed),
    {
        packed as u32
    }

    /// Marks slab position `slab_idx` in the block groups.
    fn update_layer0_group_insert(&mut self, slab_idx: u32)
        requires
            groups_wf(old(self).groups()),
        ensures
            groups_wf(final(self).groups()),
            forall|s: u32| covers(final(self).groups(), s) <==> (covers(old(self).groups(), s) || s == slab_idx),
            final(self).layer0 == old(self).layer0,
            final(self).upper == old(self).upper,
    {
        let block = slab_idx >> 3u32;
        let lane = slab_idx & 7u32;
        proof {
            lemma_block_lane(slab_idx, slab_idx);
        }
        let lane_mask: u8 = 1u8 << (lane as u8);
        let ghost g = self.groups();
        match search_groups(self.layer0_groups.as_slice(), block) {
            Ok(pos) => {
                let (b, m) = self.layer0_groups.as_slice()[pos];
                self.layer0_groups.set(pos, (b, m | lane_mask));
                proof {
                    let g2 = self.groups();
                    lemma_lane_set(m, lane, lane);
                    assert forall|s: u32| covers(g2, s) <==> (covers(g, s) || s == slab_idx) by {
                        lemma_block_lane(s, slab_idx);
                        lemma_lane_set(m, lane, lane_of(s));
                        if s == slab_idx {
                            assert(g2[pos as int].0 == block_of(s));
                        }
                        if covers(g, s) {
                            let i = choose|i: int|
                                #![trigger g[i]]
                                0 <= i < g.len() && g[i].0 == block_of(s) && lane_bit(
                                    g[i].1,
                                    lane_of(s),
                                );
                            assert(g2[i].0 == block_of(s) && lane_bit(g2[i].1, lane_of(s)));
                        }
                        if covers(g2, s) {
                            let i = choose|i: int|
                                #![trigger g2[i]]
                                0 <= i < g2.len() && g2[i].0 == block_of(s) && lane_bit(
                                    g2[i].1,
                                    lane_of(s),
                                );
                            if i != pos {
                                assert(g[i] == g2[i]);
                            } else if lane_bit(m, lane_of(s)) {
                                assert(g[i].0 == block_of(s) && lane_bit(g[i].1, lane_of(s)));
                            }
                        }
                    }
                }
            },
            Err(pos) => {
                self.layer0_groups.insert(pos, (block, lane_mask));
                proof {
                    let g2 = self.groups();
                    lemma_lane_set(0u8, lane, lane);
                    assert forall|i: int, j: int| 0 <= i < j < g2.len() implies g2[i].0
                        < g2[j].0 by {
                        if j < pos {
                        } else if j == pos {
                        } else if i < pos {
                            assert(g2[j] == g[j - 1]);
                        } else if i == pos {
                            assert(g2[j] == g[j - 1]);
                        } else {
                            assert(g2[i] == g[i - 1] && g2[j] == g[j - 1]);
                        }
                    }
                    assert forall|i: int| 0 <= i < g2.len() implies g2[i].1 != 0u8 by {
                        if i > pos {
                            assert(g2[i] == g[i - 1]);
                        }
                    }
                    assert forall|s: u32| covers(g2, s) <==> (covers(g, s) || s == slab_idx) by {
                        lemma_block_lane(s, slab_idx);
                        lemma_lane_set(0u8, lane, lane_of(s));
                        if s == slab_idx {
                            assert(g2[pos as int].0 == block_of(s) && lane_bit(
                                g2[pos as int].1,
                                lane_of(s),
                            ));
                        }
                        if covers(g, s) {
                            let i = choose|i: int|
                                #![trigger g[i]]
                                0 <= i < g.len() && g[i].0 == block_of(s) && lane_bit(
                                    g[i].1,
                                    lane_of(s),
                                );
                            if i < pos {
                                assert(g2[i] == g[i]);
                            } else {
                                assert(g2[i + 1] == g[i]);
                            }
                        }
                        if covers(g2, s) {
                            let i = choose|i: int|
                                #![trigger g2[i]]
                                0 <= i < g2.len() && g2[i].0 == block_of(s) && lane_bit(
                                    g2[i].1,
                                    lane_of(s),
                                );
                            if i < pos {
                                assert(g[i] == g2[i]);
                            } else if i > pos {
                                assert(g[i - 1] == g2[i]);
                            }
                        }
                    }
                }
            },
        }
    }

    /// Unmarks slab position `slab_idx` in the block groups, dropping a
    /// group whose mask becomes empty.
    fn update_layer0_group_remove(&mut self, slab_idx: u32)
        requires
            groups_wf(old(self).groups()),
        ensures
            groups_wf(final(self).groups()),
            forall|s: u32| covers(final(self).groups(), s) <==> (covers(old(self).groups(), s) && s != slab_idx),
            final(self).layer0 == old(self).layer0,
            final(self).upper == old(self).upper,
    {
        let block = slab_idx >> 3u32;
        let lane = slab_idx & 7u32;
        proof {
            lemma_block_lane(slab_idx, slab_idx);
        }
        let lane_mask: u8 = 1u8 << (lane as u8);
        let ghost g = self.groups();
        match search_groups(self.layer0_groups.as_slice(), block) {
            Ok(pos) => {
                let (b, m) = self.layer0_groups.as_slice()[pos];
                let next_mask = m & !lane_mask;
                if next_mask == 0 {
                    self.layer0_groups.remove(pos);
                } else {
                    self.layer0_groups.set(pos, (b, next_mask));
                }
                proof {
                    let g2 = self.groups();
                    assert forall|i: int, j: int| 0 <= i < j < g2.len() implies g2[i].0
                        < g2[j].0 by {
                        if next_mask == 0 {
                            if j < pos {
                            } else if i < pos {
                                assert(g2[j] == g[j + 1]);
                            } else {
                                assert(g2[i] == g[i + 1] && g2[j] == g[j + 1]);
                            }
                        }
                    }
                    assert forall|i: int| 0 <= i < g2.len() implies g2[i].1 != 0u8 by {
                        if next_mask == 0 && i >= pos {
                            assert(g2[i] == g[i + 1]);
                        }
                    }
                    assert forall|s: u32| covers(g2, s) <==> (covers(g, s) && s != slab_idx) by {
                        lemma_block_lane(s, slab_idx);
                        lemma_lane_set(m, lane, lane_of(s));
                        if covers(g, s) && s != slab_idx {
                            let i = choose|i: int|
                                #![trigger g[i]]
                                0 <= i < g.len() && g[i].0 == block_of(s) && lane_bit(
                                    g[i].1,
                                    lane_of(s),
                                );
                            if i == pos {
                                assert(lane_of(s) != lane);
                                assert(g2[i].0 == block_of(s) && lane_bit(g2[i].1, lane_of(s)));
                            } else if next_mask != 0 || i < pos {
                                assert(g2[i] == g[i]);
                            } else {
                                assert(g2[i - 1] == g[i]);
                            }
                        }
                        if covers(g2, s) {
                            let i = choose|i: int|
                                #![trigger g2[i]]
                                0 <= i < g2.len() && g2[i].0 == block_of(s) && lane_bit(
                                    g2[i].1,
                                    lane_of(s),
                                );
                            if next_mask != 0 {
                                if i == pos {
                                    assert(g[i].0 == block_of(s) && lane_bit(g[i].1, lane_of(s)));
                                } else {
                                    assert(g[i] == g2[i]);
                                    assert(g[i].0 != g[pos as int].0);
                                }
                            } else if i < pos {
                                assert(g[i] == g2[i]);
                                assert(g[i].0 < g[pos as int].0);
                            } else {
                                assert(g[i + 1] == g2[i]);
                                assert(g[i + 1].0 > g[pos as int].0);
                            }
                        }
                    }
                }
            },
            Err(pos) => {
                proof {
                    assert forall|s: u32| covers(g, s) implies s != slab_idx by {
                        let i = choose|i: int|
                            #![trigger g[i]]
                            0 <= i < g.len() && g[i].0 == block_of(s) && lane_bit(
                                g[i].1,
                                lane_of(s),
                            );
                        if s == slab_idx {
                            if i < pos {
                            } else {
                            }
                        }
                    }
                }
            },
        }
    }
}

impl Default for NodeAdj {
    /// A node with no neighbours on any layer.
    fn default() -> (a: NodeAdj)
        ensures
            a.wf(),
            forall|layer: int| #[trigger] a.neighbors(layer) == Seq::<u32>::empty(),
            a.layer0_entries() == Seq::<(u32, u32)>::empty(),
            a.groups() == Seq::<(u32, u8)>::empty(),
    {
        let a = NodeAdj { layer0: PackedList::new(), layer0_groups: GroupList::new(), upper: None };
        proof {
            assert(neighbors_of(a.words()) =~= Seq::<u32>::empty());
            assert(a.slabs() =~= Seq::<u32>::empty());
            assert(a.layer0_entries() =~= Seq::<(u32, u32)>::empty());
            assert forall|layer: int| #[trigger] a.neighbors(layer) == Seq::<u32>::empty() by {
            }
        }
        a
    }
}

impl NodeAdj {
    /// The number of neighbours at a layer.
    pub fn neighbors_len(&self, layer: usize) -> (n: usize)
        ensures
            n == self.neighbors(layer as int).len(),
    {
        if layer == 0 {
            self.layer0.as_slice().len()
        } else {
            match &self.upper {
                Some(layers) => {
                    if layer - 1 < layers.len() {
                        layers[layer - 1].as_slice().len()
                    } else {
                        0
                    }
                },
                None => 0,
            }
        }
    }

    /// The neighbour at position `pos` of a layer, or `None` past its end.
    pub fn neighbor_at(&self, layer: usize, pos: usize) -> (r: Option<u32>)
        ensures
            r == (if pos < self.neighbors(layer as int).len() {
                Some(self.neighbors(layer as int)[pos as int])
            } else {
                None::<u32>
            }),
    {
        if layer == 0 {
            let words = self.layer0.as_slice();
            if pos < words.len() {
                Some(Self::unpack_layer0_neighbor(words[pos]))
            } else {
                None
            }
        } else {
            match &self.upper {
                Some(layers) => {
                    if layer - 1 < layers.len() {
                        let items = layers[layer - 1].as_slice();
                        if pos < items.len() {
                            Some(items[pos])
                        } else {
                            None
                        }
                    } else {
                        None
                    }
                },
                None => None,
            }
        }
    }

    /// The neighbours at a layer, in ascending order.
    pub fn neighbors_iter(&self, layer: usize) -> (r: Vec<u32>)
        ensures
            r@ == self.neighbors(layer as int),
    {
        let n = self.neighbors_len(layer);
        let mut out: Vec<u32> = Vec::new();
        let mut k: usize = 0;
        while k < n
            invariant
                n == self.neighbors(layer as int).len(),
                k <= n,
                out@ == self.neighbors(layer as int).take(k as int),
            decreases n - k,
        {
            let x = self.neighbor_at(layer, k);
            match x {
                Some(v) => {
                    out.push(v);
                },
                None => {},
            }
            proof {
                assert(out@ =~= self.neighbors(layer as int).take(k + 1));
            }
            k = k + 1;
        }
        proof {
            assert(out@ =~= self.neighbors(layer as int));
        }
        out
    }

    /// The layer-0 block groups, ascending by block.
    pub fn layer0_groups(&self) -> (g: &[(u32, u8)])
        ensures
            g@ == self.groups(),
    {
        self.layer0_groups.as_slice()
    }
}

impl NodeAdj {
    /// Adds `neighbor` (with its slab position `slab_idx`, kept on layer 0)
    /// to a layer, unless it is already there or the layer already holds
    /// `max_neighbors`; returns whether it was added. On layer 0 the slab
    /// position must not belong to another neighbour.
    pub fn add_neighbor(&mut self, layer: usize, neighbor: u32, slab_idx: u32, max_neighbors: usize) -> (added: bool)
        requires
            old(self).wf(),
            layer == 0 ==> forall|i: int|
                0 <= i < old(self).slabs().len() && old(self).slabs()[i] == slab_idx
                    ==> old(self).neighbors(0)[i] == neighbor,
        ensures
            final(self).wf(),
            added == (!old(self).neighbors(layer as int).contains(neighbor) && old(self).neighbors(
                layer as int,
            ).len() < max_neighbors),
            added ==> final(self).neighbors(layer as int) == old(self).neighbors(layer as int).insert(
                rank(old(self).neighbors(layer as int), neighbor) as int,
                neighbor,
            ),
            !added ==> final(self).neighbors(layer as int) == old(self).neighbors(layer as int),
            forall|l: int| l != layer ==> #[trigger] final(self).neighbors(l) == old(self).neighbors(l),
            layer == 0 && added ==> final(self).layer0_entries() == old(self).layer0_entries().insert(
                rank(old(self).neighbors(0), neighbor) as int,
                (neighbor, slab_idx),
            ),
            layer != 0 || !added ==> final(self).layer0_entries() == old(self).layer0_entries(),
    {
        let ghost old_self = *self;
        if layer == 0 {
            let ghost w = self.words();
            let ghost ns = neighbors_of(w);
            assert(strictly_ascending(ns)) by {
                assert(ns == old_self.neighbors(0));
            }
            match search_packed(self.layer0.as_slice(), neighbor) {
                Ok(pos) => {
                    proof {
                        assert(ns[pos as int] == neighbor);
                    }
                    return false;
                },
                Err(pos) => {
                    proof {
                        assert(!ns.contains(neighbor)) by {
                            if ns.contains(neighbor) {
                                let k = choose|k: int| 0 <= k < ns.len() && ns[k] == neighbor;
                                assert(neighbor_of(w[k]) == neighbor);
                            }
                        }
                    }
                    if self.layer0.as_slice().len() >= max_neighbors {
                        return false;
                    }
                    let word = Self::pack_layer0(neighbor, slab_idx);
                    self.layer0.insert(pos, word);
                    self.update_layer0_group_insert(slab_idx);
                    proof {
                        lemma_words_insert(w, pos as int, neighbor, slab_idx);
                        lemma_rank(ns, neighbor, pos as int);
                        lemma_insert_ascending(ns, pos as int, neighbor);
                        let sl = slabs_of(w);
                        let sl2 = self.slabs();
                        assert(!sl.contains(slab_idx)) by {
                            if sl.contains(slab_idx) {
                                let k = choose|k: int| 0 <= k < sl.len() && sl[k] == slab_idx;
                                assert(old_self.slabs() == sl);
                                assert(old_self.slabs()[k] == slab_idx);
                                assert(old_self.neighbors(0)[k] == neighbor);
                            }
                        }
                        assert forall|i: int, j: int|
                            0 <= i < j < sl2.len() implies sl2[i] != sl2[j] by {
                            if i < pos && j < pos {
                            } else if i < pos && j == pos {
                            } else if i < pos {
                                assert(sl2[j] == sl[j - 1]);
                            } else if i == pos {
                                assert(sl2[j] == sl[j - 1]);
                            } else {
                                assert(sl2[i] == sl[i - 1] && sl2[j] == sl[j - 1]);
                            }
                        }
                        assert forall|s: u32| covers(self.groups(), s) <==> sl2.contains(s) by {
                            if sl2.contains(s) && s != slab_idx {
                                let k = choose|k: int| 0 <= k < sl2.len() && sl2[k] == s;
                                if k < pos {
                                    assert(sl[k] == s);
                                } else {
                                    assert(sl[k - 1] == s);
                                }
                            }
                            if sl.contains(s) {
                                let k = choose|k: int| 0 <= k < sl.len() && sl[k] == s;
                                if k < pos {
                                    assert(sl2[k] == s);
                                } else {
                                    assert(sl2[k + 1] == s);
                                }
                            }
                            if s == slab_idx {
                                assert(sl2[pos as int] == s);
                            }
                        }
                        assert forall|l: int| strictly_ascending(#[trigger] self.neighbors(l)) by {
                            if l != 0 {
                                assert(self.neighbors(l) == old_self.neighbors(l));
                            }
                        }
                    }
                    return true;
                },
            }
        }
        let ghost lists = self.upper_lists();
        let mut layers: Vec<UpperList> = match self.upper.take() {
            Some(v) => v,
            None => Vec::new(),
        };
        assert(layers@.map_values(|l: UpperList| upper_items(l)) =~= lists);
        while layers.len() < layer
            invariant
                layers@.len() >= lists.len(),
                forall|i: int| 0 <= i < lists.len() ==> upper_items(#[trigger] layers@[i]) == lists[i],
                forall|i: int|
                    lists.len() <= i < layers@.len() ==> upper_items(#[trigger] layers@[i])
                        == Seq::<u32>::empty(),
            decreases layer - layers@.len(),
        {
            layers.push(UpperList::new());
        }
        let ghost lists1 = layers@.map_values(|l: UpperList| upper_items(l));
        let ghost cur = upper_items(layers@[layer - 1]);
        assert(cur == old_self.neighbors(layer as int)) by {
            if layer > lists.len() {
                assert(cur == Seq::<u32>::empty());
            }
        }
        assert(strictly_ascending(cur)) by {
            assert(strictly_ascending(old_self.neighbors(layer as int)));
        }
        let found = search_u32(layers[layer - 1].as_slice(), neighbor);
        match found {
            Ok(_) => {
                self.upper = Some(layers);
                proof {
                    assert(self.upper_lists() == lists1);
                    assert forall|l: int| #[trigger] self.neighbors(l) == old_self.neighbors(l) by {
                        if 1 <= l <= lists1.len() && l > lists.len() {
                            assert(lists1[l - 1] == upper_items(layers@[l - 1]));
                        }
                    }
                    assert(self.slabs() == old_self.slabs());
                }
                false
            },
            Err(pos) => {
                if layers[layer - 1].as_slice().len() >= max_neighbors {
                    self.upper = Some(layers);
                    proof {
                        assert(self.upper_lists() == lists1);
                        assert forall|l: int| #[trigger] self.neighbors(l) == old_self.neighbors(l) by {
                            if 1 <= l <= lists1.len() && l > lists.len() {
                                assert(lists1[l - 1] == upper_items(layers@[l - 1]));
                            }
                        }
                        assert forall|l: int| strictly_ascending(#[trigger] self.neighbors(l)) by {
                            assert(self.neighbors(l) == old_self.neighbors(l));
                        }
                        assert(self.slabs() == old_self.slabs());
                    }
                    return false;
                }
                layers[layer - 1].insert(pos, neighbor);
                self.upper = Some(layers);
                proof {
                    lemma_rank(cur, neighbor, pos as int);
                    lemma_insert_ascending(cur, pos as int, neighbor);
                    let lists2 = self.upper_lists();
                    assert(lists2 =~= lists1.update(layer - 1, cur.insert(pos as int, neighbor)));
                    assert forall|l: int| l != layer implies #[trigger] self.neighbors(l)
                        == old_self.neighbors(l) by {
                        if 1 <= l <= lists1.len() && l > lists.len() {
                            assert(lists1[l - 1] == upper_items(layers@[l - 1]));
                        }
                    }
                    assert forall|l: int| strictly_ascending(#[trigger] self.neighbors(l)) by {
                        if l != layer {
                            assert(self.neighbors(l) == old_self.neighbors(l));
                        }
                    }
                    assert(self.slabs() == old_self.slabs());
                }
                true
            },
        }
    }
}

impl NodeAdj {
    /// Removes `neighbor` from a layer; returns whether it was there.
    pub fn remove_neighbor(&mut self, layer: usize, neighbor: u32) -> (removed: bool)
        requires
            old(self).wf(),
        ensures
            final(self).wf(),
            removed == old(self).neighbors(layer as int).contains(neighbor),
            removed ==> final(self).neighbors(layer as int) == old(self).neighbors(layer as int).remove(
                rank(old(self).neighbors(layer as int), neighbor) as int,
            ),
            !removed ==> final(self).neighbors(layer as int) == old(self).neighbors(layer as int),
            forall|l: int| l != layer ==> #[trigger] final(self).neighbors(l) == old(self).neighbors(l),
            layer == 0 && removed ==> final(self).layer0_entries() == old(self).layer0_entries().remove(
                rank(old(self).neighbors(0), neighbor) as int,
            ),
            layer != 0 || !removed ==> final(self).layer0_entries() == old(self).layer0_entries(),
    {
        let ghost old_self = *self;
        if layer == 0 {
            let ghost w = self.words();
            let ghost ns = neighbors_of(w);
            assert(strictly_ascending(ns)) by {
                assert(ns == old_self.neighbors(0));
            }
            match search_packed(self.layer0.as_slice(), neighbor) {
                Ok(pos) => {
                    let packed = self.layer0.remove(pos);
                    self.update_layer0_group_remove(Self::unpack_layer0_slab(packed));
                    proof {
                        lemma_words_remove(w, pos as int);
                        lemma_remove_ascending(ns, pos as int);
                        assert(ns[pos as int] == neighbor);
                        assert forall|k: int| pos <= k < ns.len() implies ns[k] >= neighbor by {
                            if k > pos {
                                assert(ns[pos as int] < ns[k]);
                            }
                        }
                        lemma_rank(ns, neighbor, pos as int);
                        let sl = slabs_of(w);
                        let sl2 = self.slabs();
                        let gone = slab_of(packed);
                        assert(sl[pos as int] == gone);
                        assert(sl == old_self.slabs());
                        assert forall|i: int, j: int|
                            0 <= i < j < sl2.len() implies sl2[i] != sl2[j] by {
                            if j < pos {
                            } else if i < pos {
                                assert(sl2[j] == sl[j + 1]);
                            } else {
                                assert(sl2[i] == sl[i + 1] && sl2[j] == sl[j + 1]);
                            }
                        }
                        assert forall|s: u32| covers(self.groups(), s) <==> sl2.contains(s) by {
                            if sl2.contains(s) {
                                let k = choose|k: int| 0 <= k < sl2.len() && sl2[k] == s;
                                if k < pos {
                                    assert(sl[k] == s);
                                    assert(sl[k] != sl[pos as int]);
                                } else {
                                    assert(sl[k + 1] == s);
                                    assert(sl[k + 1] != sl[pos as int]);
                                }
                            }
                            if sl.contains(s) && s != gone {
                                let k = choose|k: int| 0 <= k < sl.len() && sl[k] == s;
                                if k < pos {
                                    assert(sl2[k] == s);
                                } else {
                                    assert(sl2[k - 1] == s);
                                }
                            }
                        }
                        assert forall|l: int| strictly_ascending(#[trigger] self.neighbors(l)) by {
                            if l != 0 {
                                assert(self.neighbors(l) == old_self.neighbors(l));
                            }
                        }
                    }
                    true
                },
                Err(pos) => {
                    proof {
                        assert(!ns.contains(neighbor)) by {
                            if ns.contains(neighbor) {
                                let k = choose|k: int| 0 <= k < ns.len() && ns[k] == neighbor;
                                assert(neighbor_of(w[k]) == neighbor);
                            }
                        }
                    }
                    false
                },
            }
        } else {
            let ghost lists = self.upper_lists();
            let mut layers: Vec<UpperList> = match self.upper.take() {
                Some(v) => v,
                None => {
                    proof {
                        assert(old_self.neighbors(layer as int) == Seq::<u32>::empty());
                    }
                    return false;
                },
            };
            assert(layers@.map_values(|l: UpperList| upper_items(l)) =~= lists);
            if layer - 1 < layers.len() {
                let ghost cur = upper_items(layers@[layer - 1]);
                assert(cur == old_self.neighbors(layer as int));
                assert(strictly_ascending(cur)) by {
                    assert(strictly_ascending(old_self.neighbors(layer as int)));
                }
                let found = search_u32(layers[layer - 1].as_slice(), neighbor);
                match found {
                    Ok(pos) => {
                        layers[layer - 1].remove(pos);
                        self.upper = Some(layers);
                        proof {
                            assert forall|k: int| pos <= k < cur.len() implies cur[k] >= neighbor by {
                                if k > pos {
                                    assert(cur[pos as int] < cur[k]);
                                }
                            }
                            lemma_rank(cur, neighbor, pos as int);
                            lemma_remove_ascending(cur, pos as int);
                            let lists2 = self.upper_lists();
                            assert(lists2 =~= lists.update(layer - 1, cur.remove(pos as int)));
                            assert forall|l: int| strictly_ascending(#[trigger] self.neighbors(l)) by {
                                if l != layer {
                                    assert(self.neighbors(l) == old_self.neighbors(l));
                                }
                            }
                            assert(self.slabs() == old_self.slabs());
                        }
                        return true;
                    },
                    Err(_) => {},
                }
            }
            self.upper = Some(layers);
            proof {
                assert(self.upper_lists() == lists);
                assert(self.slabs() == old_self.slabs());
            }
            false
        }
    }

    /// Removes every neighbour of a layer.
    pub fn clear_layer(&mut self, layer: usize)
        requires
            old(self).wf(),
        ensures
            final(self).wf(),
            final(self).neighbors(layer as int) == Seq::<u32>::empty(),
            forall|l: int| l != layer ==> #[trigger] final(self).neighbors(l) == old(self).neighbors(l),
            layer == 0 ==> final(self).layer0_entries() == Seq::<(u32, u32)>::empty(),
            layer == 0 ==> final(self).groups() == Seq::<(u32, u8)>::empty(),
            layer != 0 ==> final(self).layer0_entries() == old(self).layer0_entries(),
    {
        let ghost old_self = *self;
        if layer == 0 {
            self.layer0.clear();
            self.layer0_groups.clear();
            proof {
                assert(neighbors_of(self.words()) =~= Seq::<u32>::empty());
                assert(self.slabs() =~= Seq::<u32>::empty());
                assert(self.layer0_entries() =~= Seq::<(u32, u32)>::empty());
                assert forall|l: int| strictly_ascending(#[trigger] self.neighbors(l)) by {
                    if l != 0 {
                        assert(self.neighbors(l) == old_self.neighbors(l));
                    }
                }
            }
        } else {
            let ghost lists = self.upper_lists();
            let mut layers: Vec<UpperList> = match self.upper.take() {
                Some(v) => v,
                None => {
                    proof {
                        assert(self.upper_lists() == lists);
                        assert(self.slabs() == old_self.slabs());
                    }
                    return;
                },
            };
            assert(layers@.map_values(|l: UpperList| upper_items(l)) =~= lists);
            if layer - 1 < layers.len() {
                layers[layer - 1].clear();
                proof {
                    assert(layers@.map_values(|l: UpperList| upper_items(l)) =~= lists.update(
                        layer - 1,
                        Seq::<u32>::empty(),
                    ));
                }
            }
            self.upper = Some(layers);
            proof {
                assert forall|l: int| strictly_ascending(#[trigger] self.neighbors(l)) by {
                    if l != layer {
                        assert(self.neighbors(l) == old_self.neighbors(l));
                    }
                }
                assert(self.slabs() == old_self.slabs());
            }
        }
    }
}

/// A slab position that block group `i` marks.
spec fn marked_slab(groups: Seq<(u32, u8)>, i: int) -> u32 {
    choose|s: u32| block_of(s) == groups[i].0 && lane_bit(groups[i].1, lane_of(s))
}

proof fn lemma_marked_slab(groups: Seq<(u32, u8)>, i: int)
    requires
        groups_wf(groups),
        0 <= i < groups.len(),
    ensures
        block_of(marked_slab(groups, i)) == groups[i].0,
        lane_bit(groups[i].1, lane_of(marked_slab(groups, i))),
        covers(groups, marked_slab(groups, i)),
{
    let l = lemma_mask_lane(groups[i].1);
    let s = (groups[i].0 << 3u32) | l;
    lemma_compose(groups[i].0, l);
    assert(block_of(s) == groups[i].0 && lane_bit(groups[i].1, lane_of(s)));
}

/// The layer-0 block groups never outnumber the layer-0 neighbours: each
/// group marks at least one slab position, and distinct groups mark
/// distinct positions.
pub proof fn lemma_groups_bounded(a: NodeAdj)
    requires
        a.wf(),
    ensures
        a.groups().len() <= a.neighbors(0).len(),
{
    let g = a.groups();
    let sl = a.slabs();
    let f = |i: int| choose|k: int| 0 <= k < sl.len() && sl[k] == marked_slab(g, i);
    assert forall|i: int| 0 <= i < g.len() implies 0 <= #[trigger] f(i) < sl.len() && sl[f(i)]
        == marked_slab(g, i) by {
        lemma_marked_slab(g, i);
        assert(sl.contains(marked_slab(g, i)));
    }
    let x = set_int_range(0, g.len() as int);
    let y = x.map(f);
    lemma_int_range(0, g.len() as int);
    lemma_int_range(0, sl.len() as int);
    assert(injective_on(f, x)) by {
        assert forall|i1: int, i2: int|
            x.contains(i1) && x.contains(i2) && #[trigger] f(i1) == #[trigger] f(i2) implies i1
            == i2 by {
            lemma_marked_slab(g, i1);
            lemma_marked_slab(g, i2);
            assert(g[i1].0 == g[i2].0);
            if i1 < i2 {
                assert(g[i1].0 < g[i2].0);
            } else if i2 < i1 {
                assert(g[i2].0 < g[i1].0);
            }
        }
    }
    lemma_map_size(x, y, f);
    assert(y.subset_of(set_int_range(0, sl.len() as int))) by {
        assert forall|k: int| y.contains(k) implies set_int_range(0, sl.len() as int).contains(k) by {
            let i = choose|i: int| x.contains(i) && f(i) == k;
        }
    }
    lemma_len_subset(y, set_int_range(0, sl.len() as int));
}

proof fn lemma_rank_partition(s: Seq<u32>, x: u32)
    requires
        strictly_ascending(s),
    ensures
        rank(s, x) <= s.len(),
        forall|i: int| 0 <= i < rank(s, x) ==> s[i] < x,
        forall|i: int| rank(s, x) <= i < s.len() ==> s[i] >= x,
    decreases s.len(),
{
    if s.len() > 0 {
        let d = s.drop_last();
        assert(strictly_ascending(d));
        lemma_rank_partition(d, x);
        if s.last() < x {
            assert forall|i: int| 0 <= i < d.len() implies d[i] < x by {
                assert(s[i] < s[s.len() - 1]);
            }
            if rank(d, x) < d.len() {
                assert(d[rank(d, x) as int] < x);
            }
        }
        assert forall|i: int| 0 <= i < rank(s, x) implies s[i] < x by {
            if i < d.len() {
                assert(s[i] == d[i]);
            }
        }
        assert forall|i: int| rank(s, x) <= i < s.len() implies s[i] >= x by {
            if i < d.len() {
                assert(s[i] == d[i]);
            }
        }
    }
}

/// Adding a neighbour that a layer lacks and then removing it gives the
/// layer back: the neighbour goes in at its rank, is found again at that
/// rank, and taking it out there restores the list.
pub proof fn lemma_add_remove_roundtrip(s: Seq<u32>, x: u32)
    requires
        strictly_ascending(s),
        !s.contains(x),
    ensures
        ({
            let t = s.insert(rank(s, x) as int, x);
            &&& t.contains(x)
            &&& rank(t, x) == rank(s, x)
            &&& t.remove(rank(t, x) as int) == s
        }),
{
    lemma_rank_partition(s, x);
    let p = rank(s, x) as int;
    let t = s.insert(p, x);
    assert(t[p] == x);
    assert forall|i: int| p <= i < t.len() implies t[i] >= x by {
        if i > p {
            assert(t[i] == s[i - 1]);
        }
    }
    lemma_rank(t, x, p);
    assert(t.remove(p) =~= s);
}

} // verus!
