//! Combinatorial helpers of the structural intuition engine: hypothesis
//! ordering, lexicographic node comparison, sorted-neighbour intersection and
//! the bounded top-degree seed list.
use core::cmp::Ordering;

use vstd::prelude::*;

use crate::buffers::{seed_items, SeedList};
use crate::signal::NodeId;

verus! {

/// Capacity of the curvature seed list.
pub const CURVATURE_SEED_LIMIT: usize = 8usize;

/// Hypothesis category.
#[derive(Clone, Copy, Debug, PartialEq, Eq, Structural)]
pub enum HypothesisKind {
    /// Long-lived cycle detected in incremental H¹ state.
    PersistentCycle,
    /// H¹ cycle closure via triangle appearance.
    CycleClosure,
    /// Low local clustering edge proxy.
    FragileBridge,
    /// Low λ₂ partition signal.
    SpectralPartition,
    /// Local negative curvature proxy from δ-hyperbolicity.
    NegativeCurvatureRegion,
    /// High branching with low local triangle density.
    HierarchicalHub,
}

/// Tie-break rank of a hypothesis kind, in declaration order.
pub open spec fn spec_kind_rank(kind: HypothesisKind) -> usize {
    match kind {
        HypothesisKind::PersistentCycle => 0,
        HypothesisKind::CycleClosure => 1,
        HypothesisKind::FragileBridge => 2,
        HypothesisKind::SpectralPartition => 3,
        HypothesisKind::NegativeCurvatureRegion => 4,
        HypothesisKind::HierarchicalHub => 5,
    }
}

/// Tie-break rank of a hypothesis kind, in declaration order.
pub fn kind_rank(kind: HypothesisKind) -> (r: usize)
    ensures
        r == spec_kind_rank(kind),
{
    match kind {
        HypothesisKind::PersistentCycle => 0,
        HypothesisKind::CycleClosure => 1,
        HypothesisKind::FragileBridge => 2,
        HypothesisKind::SpectralPartition => 3,
        HypothesisKind::NegativeCurvatureRegion => 4,
        HypothesisKind::HierarchicalHub => 5,
    }
}

/// The raw identifiers of a node list.
pub open spec fn raws(s: Seq<NodeId>) -> Seq<u64> {
    Seq::new(s.len(), |i: int| s[i].raw())
}

/// Strict lexicographic order on raw identifier sequences (a proper prefix
/// comes first).
pub open spec fn lex_less(a: Seq<u64>, b: Seq<u64>) -> bool
    decreases a.len(),
{
    if a.len() == 0 {
        b.len() > 0
    } else if b.len() == 0 {
        false
    } else if a[0] != b[0] {
        a[0] < b[0]
    } else {
        lex_less(a.drop_first(), b.drop_first())
    }
}

/// Three-way lexicographic comparison by raw identifier: -1, 0 or 1.
fn lex_compare(left: &[NodeId], right: &[NodeId]) -> (r: i8)
    ensures
        r == -1 <==> lex_less(raws(left@), raws(right@)),
        r == 1 <==> lex_less(raws(right@), raws(left@)),
        r == 0 <==> raws(left@) == raws(right@),
        -1 <= r <= 1,
{
    let ghost a = raws(left@);
    let ghost b = raws(right@);
    let mut i: usize = 0;
    proof {
        assert(a.skip(0) =~= a);
        assert(b.skip(0) =~= b);
    }
    while i < left.len() && i < right.len()
        invariant
            a == raws(left@),
            b == raws(right@),
            i <= left@.len(),
            i <= right@.len(),
            a.take(i as int) == b.take(i as int),
            lex_less(a, b) == lex_less(a.skip(i as int), b.skip(i as int)),
            lex_less(b, a) == lex_less(b.skip(i as int), a.skip(i as int)),
        decreases left@.len() - i,
    {
        let x = left[i].get();
        let y = right[i].get();
        proof {
            assert(a.skip(i as int)[0] == x);
            assert(b.skip(i as int)[0] == y);
        }
        if x < y {
            proof {
                assert(a != b) by {
                    assert(a[i as int] != b[i as int]);
                }
            }
            return -1;
        }
        if x > y {
            proof {
                assert(a != b) by {
                    assert(a[i as int] != b[i as int]);
                }
            }
            return 1;
        }
        proof {
            assert(a.skip(i as int).drop_first() =~= a.skip(i + 1));
            assert(b.skip(i as int).drop_first() =~= b.skip(i + 1));
            assert(a.take(i + 1) =~= a.take(i as int).push(x));
            assert(b.take(i + 1) =~= b.take(i as int).push(y));
        }
        i += 1;
    }
    if left.len() < right.len() {
        proof {
            assert(a.skip(i as int).len() == 0);
            assert(a != b);
        }
        -1
    } else if left.len() > right.len() {
        proof {
            assert(b.skip(i as int).len() == 0);
            assert(a != b);
        }
        1
    } else {
        proof {
            assert(a =~= a.take(i as int));
            assert(b =~= b.take(i as int));
            assert(a.skip(i as int).len() == 0 && b.skip(i as int).len() == 0);
        }
        0
    }
}

/// Lexicographic comparison of two node lists by raw identifier.
pub fn cmp_nodes(left: &[NodeId], right: &[NodeId]) -> (r: Ordering)
    ensures
        r == Ordering::Less <==> lex_less(raws(left@), raws(right@)),
        r == Ordering::Greater <==> lex_less(raws(right@), raws(left@)),
        r == Ordering::Equal <==> raws(left@) == raws(right@),
{
    let c = lex_compare(left, right);
    if c < 0 {
        Ordering::Less
    } else if c > 0 {
        Ordering::Greater
    } else {
        Ordering::Equal
    }
}

/// Identifiers strictly increase along the list.
pub open spec fn strictly_increasing_ids(s: Seq<NodeId>) -> bool {
    forall|i: int, j: int| 0 <= i < j < s.len() ==> (#[trigger] s[i]).raw() < (#[trigger] s[j]).raw()
}

/// Number of entries of `a` that also occur in `b`.
pub open spec fn count_common(a: Seq<NodeId>, b: Seq<NodeId>) -> nat
    decreases a.len(),
{
    if a.len() == 0 {
        0
    } else {
        count_common(a.drop_last(), b) + if b.contains(a.last()) {
            1nat
        } else {
            0nat
        }
    }
}

proof fn lemma_count_common_take(a: Seq<NodeId>, b: Seq<NodeId>, i: int)
    requires
        0 <= i < a.len(),
    ensures
        count_common(a.take(i + 1), b) == count_common(a.take(i), b) + if b.contains(a[i]) {
            1nat
        } else {
            0nat
        },
{
    assert(a.take(i + 1).drop_last() =~= a.take(i));
}

proof fn lemma_count_common_rest(a: Seq<NodeId>, b: Seq<NodeId>, i: int, k: int)
    requires
        0 <= i <= k <= a.len(),
        forall|x: int| i <= x < a.len() ==> !b.contains(#[trigger] a[x]),
    ensures
        count_common(a.take(k), b) == count_common(a.take(i), b),
    decreases k - i,
{
    if k > i {
        lemma_count_common_rest(a, b, i, k - 1);
        lemma_count_common_take(a, b, k - 1);
    }
}

/// Size of the intersection of two lists sorted by strictly increasing
/// identifier, by a two-pointer walk.
pub fn intersection_count(left: &[NodeId], right: &[NodeId]) -> (shared: usize)
    requires
        strictly_increasing_ids(left@),
        strictly_increasing_ids(right@),
    ensures
        shared == count_common(left@, right@),
{
    let ghost a = left@;
    let ghost b = right@;
    let mut shared: usize = 0;
    let mut i: usize = 0;
    let mut j: usize = 0;
    while i < left.len() && j < right.len()
        invariant
            a == left@,
            b == right@,
            strictly_increasing_ids(a),
            strictly_increasing_ids(b),
            i <= a.len(),
            j <= b.len(),
            shared <= i,
            shared == count_common(a.take(i as int), b),
            i < a.len() ==> forall|k: int| 0 <= k < j ==> (#[trigger] b[k]).raw() < a[i as int].raw(),
            j < b.len() ==> forall|k: int| 0 <= k < i ==> (#[trigger] a[k]).raw() < b[j as int].raw(),
        decreases (a.len() - i) + (b.len() - j),
    {
        let x = left[i];
        let y = right[j];
        proof {
            lemma_count_common_take(a, b, i as int);
        }
        if x.get() < y.get() {
            proof {
                assert(!b.contains(x)) by {
                    if b.contains(x) {
                        let k = choose|k: int| 0 <= k < b.len() && b[k] == x;
                        if k >= j {
                            if k > j {
                                assert(b[j as int].raw() < b[k].raw());
                            }
                        }
                    }
                }
                if i + 1 < a.len() {
                    assert forall|k: int| 0 <= k < j implies (#[trigger] b[k]).raw() < a[i + 1].raw() by {
                        assert(a[i as int].raw() < a[i + 1].raw());
                    }
                }
            }
            i += 1;
        } else if x.get() > y.get() {
            proof {
                if j + 1 < b.len() {
                    assert forall|k: int| 0 <= k < i implies (#[trigger] a[k]).raw() < b[j + 1].raw() by {
                        assert(b[j as int].raw() < b[j + 1].raw());
                    }
                }
            }
            j += 1;
        } else {
            proof {
                NodeId::lemma_raw_injective(x, y);
                assert(b.contains(x)) by {
                    assert(b[j as int] == x);
                }
                if i + 1 < a.len() {
                    assert forall|k: int| 0 <= k < j + 1 implies (#[trigger] b[k]).raw() < a[i + 1].raw() by {
                        assert(a[i as int].raw() < a[i + 1].raw());
                    }
                }
                if j + 1 < b.len() {
                    assert forall|k: int| 0 <= k < i + 1 implies (#[trigger] a[k]).raw() < b[j + 1].raw() by {
                        assert(b[j as int].raw() < b[j + 1].raw());
                    }
                }
            }
            shared += 1;
            i += 1;
            j += 1;
        }
    }
    proof {
        if i < a.len() {
            assert(j == b.len());
            assert forall|x: int| i <= x < a.len() implies !b.contains(#[trigger] a[x]) by {
                if b.contains(a[x]) {
                    let k = choose|k: int| 0 <= k < b.len() && b[k] == a[x];
                    if x > i {
                        assert(a[i as int].raw() < a[x].raw());
                    }
                }
            }
        }
        lemma_count_common_rest(a, b, i as int, a.len() as int);
        assert(a.take(a.len() as int) =~= a);
    }
    shared
}

/// `(id, degree)` goes before the seed `s`: higher degree first, then lower
/// identifier.
pub open spec fn seed_before(id: NodeId, degree: usize, s: (NodeId, usize)) -> bool {
    degree > s.1 || (degree == s.1 && id.raw() < s.0.raw())
}

/// First position of `seeds` that `(id, degree)` goes before (the length
/// when there is none).
pub open spec fn seed_position(seeds: Seq<(NodeId, usize)>, id: NodeId, degree: usize) -> int
    decreases seeds.len(),
{
    if seeds.len() == 0 {
        0
    } else if seed_before(id, degree, seeds[0]) {
        0
    } else {
        1 + seed_position(seeds.drop_first(), id, degree)
    }
}

/// The seed list after offering `(id, degree)` to `s0`.
pub open spec fn seed_step(s0: Seq<(NodeId, usize)>, id: NodeId, degree: usize) -> Seq<(NodeId, usize)> {
    let pos = seed_position(s0, id, degree);
    if pos < CURVATURE_SEED_LIMIT {
        let s1 = s0.insert(pos, (id, degree));
        if s1.len() > CURVATURE_SEED_LIMIT {
            s1.take(CURVATURE_SEED_LIMIT as int)
        } else {
            s1
        }
    } else {
        s0
    }
}

/// The seed list after offering every `(node, degree)` pair of `offers`
/// in order, starting from an empty list.
pub open spec fn seeds_after(offers: Seq<(NodeId, usize)>) -> Seq<(NodeId, usize)>
    decreases offers.len(),
{
    if offers.len() == 0 {
        Seq::empty()
    } else {
        let last = offers.last();
        seed_step(seeds_after(offers.drop_last()), last.0, last.1)
    }
}

/// Inserts `(id, degree)` into the seed list kept ordered by degree
/// (descending) then identifier (ascending), keeping at most
/// `CURVATURE_SEED_LIMIT` seeds.
pub(crate) fn insert_seed(seeds: &mut SeedList, id: NodeId, degree: usize)
    ensures
        seed_items(*final(seeds)) == seed_step(seed_items(*old(seeds)), id, degree),
{
    let items = seeds.as_slice();
    let ghost s0 = items@;
    let mut pos: usize = 0;
    proof {
        assert(s0.skip(0) =~= s0);
    }
    while pos < items.len()
        invariant
            s0 == items@,
            pos <= s0.len(),
            seed_position(s0, id, degree) == pos + seed_position(s0.skip(pos as int), id, degree),
        ensures
            pos <= s0.len(),
            seed_position(s0, id, degree) == pos + seed_position(s0.skip(pos as int), id, degree),
            pos == s0.len() || seed_before(id, degree, s0[pos as int]),
        decreases s0.len() - pos,
    {
        let (eid, edeg) = items[pos];
        proof {
            assert(s0.skip(pos as int)[0] == s0[pos as int]);
        }
        if degree > edeg || (degree == edeg && id.get() < eid.get()) {
            break;
        }
        proof {
            assert(s0.skip(pos as int).drop_first() =~= s0.skip(pos + 1));
        }
        pos += 1;
    }
    proof {
        if pos == s0.len() {
            assert(s0.skip(pos as int).len() == 0);
        } else {
            assert(s0.skip(pos as int)[0] == s0[pos as int]);
        }
        assert(seed_position(s0, id, degree) == pos);
    }
    if pos < CURVATURE_SEED_LIMIT {
        seeds.insert(pos, (id, degree));
        seeds.truncate(CURVATURE_SEED_LIMIT);
    }
}

/// `a` ranks no lower than `b`: higher degree first, then lower identifier.
pub open spec fn seed_le(a: (NodeId, usize), b: (NodeId, usize)) -> bool {
    a.1 > b.1 || (a.1 == b.1 && a.0.raw() <= b.0.raw())
}

/// The seeds are ordered by degree (descending), then identifier (ascending).
pub open spec fn seeds_ordered(s: Seq<(NodeId, usize)>) -> bool {
    forall|i: int, j: int| 0 <= i < j < s.len() ==> seed_le(#[trigger] s[i], #[trigger] s[j])
}

proof fn lemma_seed_position(s: Seq<(NodeId, usize)>, id: NodeId, degree: usize)
    ensures
        0 <= seed_position(s, id, degree) <= s.len(),
        forall|i: int| 0 <= i < seed_position(s, id, degree) ==> !seed_before(id, degree, #[trigger] s[i]),
        seed_position(s, id, degree) < s.len() ==> seed_before(id, degree, s[seed_position(s, id, degree)]),
    decreases s.len(),
{
    if s.len() > 0 && !seed_before(id, degree, s[0]) {
        let t = s.drop_first();
        lemma_seed_position(t, id, degree);
        assert forall|i: int| 0 <= i < seed_position(s, id, degree) implies !seed_before(id, degree, #[trigger] s[i]) by {
            if i > 0 {
                assert(s[i] == t[i - 1]);
            }
        }
    }
}

/// Offering a seed keeps the list ordered and within the limit.
proof fn lemma_seed_step_ordered(s0: Seq<(NodeId, usize)>, id: NodeId, degree: usize)
    requires
        seeds_ordered(s0),
        s0.len() <= CURVATURE_SEED_LIMIT,
    ensures
        seeds_ordered(seed_step(s0, id, degree)),
        seed_step(s0, id, degree).len() <= CURVATURE_SEED_LIMIT,
{
    lemma_seed_position(s0, id, degree);
    let pos = seed_position(s0, id, degree);
    if pos < CURVATURE_SEED_LIMIT {
        let x = (id, degree);
        let s1 = s0.insert(pos, x);
        assert forall|i: int, j: int| 0 <= i < j < s1.len() implies seed_le(#[trigger] s1[i], #[trigger] s1[j]) by {
            if j < pos {
                assert(s1[i] == s0[i] && s1[j] == s0[j]);
            } else if j == pos {
                assert(s1[i] == s0[i]);
                assert(!seed_before(id, degree, s0[i]));
            } else if i == pos {
                assert(s1[j] == s0[j - 1]);
                assert(seed_before(id, degree, s0[pos]));
                if j - 1 > pos {
                    assert(seed_le(s0[pos], s0[j - 1]));
                }
            } else if i < pos {
                assert(s1[i] == s0[i] && s1[j] == s0[j - 1]);
            } else {
                assert(s1[i] == s0[i - 1] && s1[j] == s0[j - 1]);
            }
        }
    }
}

proof fn lemma_seeds_after_ordered(offers: Seq<(NodeId, usize)>)
    ensures
        seeds_ordered(seeds_after(offers)),
        seeds_after(offers).len() <= CURVATURE_SEED_LIMIT,
    decreases offers.len(),
{
    if offers.len() > 0 {
        lemma_seeds_after_ordered(offers.drop_last());
        let last = offers.last();
        lemma_seed_step_ordered(seeds_after(offers.drop_last()), last.0, last.1);
    }
}

/// Offering `(id, degree)`: the list grows by one while it holds fewer than
/// `CURVATURE_SEED_LIMIT` seeds; every seed kept was already a seed or is
/// the offer; whatever leaves the list (the offer itself or an evicted seed)
/// goes before none of the seeds that remain.
proof fn lemma_seed_step_keeps_best(s0: Seq<(NodeId, usize)>, id: NodeId, degree: usize)
    requires
        seeds_ordered(s0),
        s0.len() <= CURVATURE_SEED_LIMIT,
    ensures
        ({
            let s1 = seed_step(s0, id, degree);
            &&& s1.len() == if s0.len() < CURVATURE_SEED_LIMIT {
                s0.len() + 1int
            } else {
                s0.len() as int
            }
            &&& forall|j: int| 0 <= j < s1.len() ==> s0.contains(#[trigger] s1[j]) || s1[j] == (id, degree)
            &&& s0.len() < CURVATURE_SEED_LIMIT ==> s1.contains((id, degree)) && forall|k: int|
                0 <= k < s0.len() ==> s1.contains(#[trigger] s0[k])
            &&& s1.contains((id, degree)) || forall|j: int|
                0 <= j < s1.len() ==> !seed_before(id, degree, #[trigger] s1[j])
            &&& forall|k: int|
                0 <= k < s0.len() && !s1.contains(#[trigger] s0[k]) ==> forall|j: int|
                    0 <= j < s1.len() ==> !seed_before(s0[k].0, s0[k].1, #[trigger] s1[j])
            &&& forall|j: int|
                0 <= j < s1.len() ==> (s0.contains(#[trigger] s1[j]) && forall|k: int|
                    0 <= k < s0.len() && !s1.contains(s0[k]) ==> !seed_before(s0[k].0, s0[k].1, s1[j]))
                    || s1[j] == (id, degree)
        }),
{
    lemma_seed_position(s0, id, degree);
    lemma_seed_step_ordered(s0, id, degree);
    let pos = seed_position(s0, id, degree);
    let x = (id, degree);
    let s1 = seed_step(s0, id, degree);
    if pos < CURVATURE_SEED_LIMIT {
        let ins = s0.insert(pos, x);
        assert forall|j: int| 0 <= j < ins.len() implies (j < pos ==> ins[j] == s0[j]) && (j == pos
            ==> ins[j] == x) && (j > pos ==> ins[j] == s0[j - 1]) by {}
        assert(s1[pos] == x);
        if s0.len() < CURVATURE_SEED_LIMIT {
            assert forall|k: int| 0 <= k < s0.len() implies s1.contains(#[trigger] s0[k]) by {
                if k < pos {
                    assert(s1[k] == s0[k]);
                } else {
                    assert(s1[k + 1] == s0[k]);
                }
            }
        }
        assert forall|j: int| 0 <= j < s1.len() implies s0.contains(#[trigger] s1[j]) || s1[j] == x by {
            if j < pos {
                assert(s0[j] == s1[j]);
            } else if j > pos {
                assert(s0[j - 1] == s1[j]);
            }
        }
        assert forall|k: int| 0 <= k < s0.len() && !s1.contains(#[trigger] s0[k]) implies forall|j: int|
            0 <= j < s1.len() ==> !seed_before(s0[k].0, s0[k].1, #[trigger] s1[j]) by {
            if k < pos {
                assert(s1[k] == s0[k]);
            } else if k + 1 < s1.len() {
                assert(s1[k + 1] == s0[k]);
            }
            // only the last seed of a full list is evicted
            assert(k == s0.len() - 1 && s0.len() == CURVATURE_SEED_LIMIT);
            assert forall|j: int| 0 <= j < s1.len() implies !seed_before(s0[k].0, s0[k].1, #[trigger] s1[j]) by {
                if j < pos {
                    assert(s1[j] == s0[j]);
                    assert(seed_le(s0[j], s0[k]));
                } else if j == pos {
                    assert(seed_before(id, degree, s0[pos]));
                    if pos < k {
                        assert(seed_le(s0[pos], s0[k]));
                    }
                } else {
                    assert(s1[j] == s0[j - 1]);
                    assert(seed_le(s0[j - 1], s0[k]));
                }
            }
        }
    } else {
        assert(s1 == s0);
        assert forall|j: int| 0 <= j < s1.len() implies s0.contains(#[trigger] s1[j]) || s1[j] == x by {
            assert(s0[j] == s1[j]);
        }
        assert forall|j: int| 0 <= j < s1.len() implies !seed_before(id, degree, #[trigger] s1[j]) by {
            assert(s1[j] == s0[j]);
        }
    }
    assert forall|j: int| 0 <= j < s1.len() implies (s0.contains(#[trigger] s1[j]) && forall|k: int|
        0 <= k < s0.len() && !s1.contains(s0[k]) ==> !seed_before(s0[k].0, s0[k].1, s1[j])) || s1[j]
        == x by {
        if s1[j] != x {
            assert(s0.contains(s1[j]));
            assert forall|k: int| 0 <= k < s0.len() && !s1.contains(s0[k]) implies !seed_before(
                s0[k].0,
                s0[k].1,
                s1[j],
            ) by {
                assert(!s1.contains(s0[k]));
            }
        }
    }
}

/// The curvature seeds are the best offers: as many as there are offers,
/// up to `CURVATURE_SEED_LIMIT`; each seed is one of the offers; and every
/// offer left out goes before none of the seeds (under higher degree
/// first, then lower identifier).
pub proof fn lemma_seeds_are_best(offers: Seq<(NodeId, usize)>)
    ensures
        seeds_after(offers).len() == if offers.len() < CURVATURE_SEED_LIMIT {
            offers.len() as int
        } else {
            CURVATURE_SEED_LIMIT as int
        },
        offers.len() < CURVATURE_SEED_LIMIT ==> forall|k: int|
            0 <= k < offers.len() ==> seeds_after(offers).contains(#[trigger] offers[k]),
        forall|j: int| 0 <= j < seeds_after(offers).len() ==> offers.contains(#[trigger] seeds_after(offers)[j]),
        forall|k: int, j: int|
            0 <= k < offers.len() && 0 <= j < seeds_after(offers).len() && !seeds_after(offers).contains(
                offers[k],
            ) ==> !seed_before(#[trigger] offers[k].0, offers[k].1, #[trigger] seeds_after(offers)[j]),
    decreases offers.len(),
{
    lemma_seeds_after_ordered(offers);
    if offers.len() > 0 {
        let init = offers.drop_last();
        let x = offers.last();
        let s0 = seeds_after(init);
        let s1 = seeds_after(offers);
        lemma_seeds_are_best(init);
        lemma_seeds_after_ordered(init);
        lemma_seed_step_keeps_best(s0, x.0, x.1);
        assert(s1 == seed_step(s0, x.0, x.1));
        let last = offers.len() - 1;
        assert(offers[last] == x);
        assert forall|k: int| 0 <= k < init.len() implies init[k] == offers[k] by {}
        if offers.len() < CURVATURE_SEED_LIMIT {
            assert forall|k: int| 0 <= k < offers.len() implies s1.contains(#[trigger] offers[k]) by {
                if k < last {
                    assert(init[k] == offers[k]);
                    assert(s0.contains(init[k]));
                    let t = choose|t: int| 0 <= t < s0.len() && s0[t] == init[k];
                    assert(s1.contains(s0[t]));
                }
            }
        }
        assert forall|j: int| 0 <= j < s1.len() implies offers.contains(#[trigger] s1[j]) by {
            if s1[j] == x {
                assert(offers[last] == s1[j]);
            } else {
                assert(s0.contains(s1[j]));
                let t = choose|t: int| 0 <= t < s0.len() && s0[t] == s1[j];
                assert(init.contains(s0[t]));
                let u = choose|u: int| 0 <= u < init.len() && init[u] == s0[t];
                assert(offers[u] == s1[j]);
            }
        }
        assert forall|k: int, j: int|
            0 <= k < offers.len() && 0 <= j < s1.len() && !s1.contains(offers[k]) implies !seed_before(
            #[trigger] offers[k].0,
            offers[k].1,
            #[trigger] s1[j],
        ) by {
            let o = offers[k];
            if k == last {
                assert(o == x);
            } else {
                assert(init[k] == o);
                if s0.contains(o) {
                    let t = choose|t: int| 0 <= t < s0.len() && s0[t] == o;
                    assert(!s1.contains(s0[t]));
                } else {
                    // `o` left the list earlier: it goes before none of the old seeds,
                    // and a new seed is either an old one or the offer
                    if s1[j] == x {
                        if s0.len() < CURVATURE_SEED_LIMIT {
                            assert(s0.contains(init[k]));
                        }
                        if seed_before(o.0, o.1, x) {
                            lemma_seed_position(s0, x.0, x.1);
                            let pos = seed_position(s0, x.0, x.1);
                            if pos < s0.len() {
                                assert(seed_before(x.0, x.1, s0[pos]));
                                assert(!seed_before(o.0, o.1, s0[pos]));
                            }
                        }
                    } else {
                        let t = choose|t: int| 0 <= t < s0.len() && s0[t] == s1[j];
                        assert(!seed_before(o.0, o.1, s0[t]));
                    }
                }
            }
        }
    }
}

/// The curvature seeds of a graph given as `(node, degree)` pairs in node
/// order: the highest-degree nodes, ties broken by the lower identifier, at
/// most `CURVATURE_SEED_LIMIT` of them, each offered in turn to the bounded
/// seed list.
pub fn curvature_seeds(degrees: &[(NodeId, usize)]) -> (r: Vec<(NodeId, usize)>)
    ensures
        r@ == seeds_after(degrees@),
        r@.len() <= CURVATURE_SEED_LIMIT,
        seeds_ordered(r@),
        r@.len() == if degrees@.len() < CURVATURE_SEED_LIMIT {
            degrees@.len() as int
        } else {
            CURVATURE_SEED_LIMIT as int
        },
        forall|j: int| 0 <= j < r@.len() ==> degrees@.contains(#[trigger] r@[j]),
        forall|k: int, j: int|
            0 <= k < degrees@.len() && 0 <= j < r@.len() && !r@.contains(degrees@[k]) ==> !seed_before(
                #[trigger] degrees@[k].0,
                degrees@[k].1,
                #[trigger] r@[j],
            ),
{
    proof {
        lemma_seeds_after_ordered(degrees@);
        lemma_seeds_are_best(degrees@);
    }
    let mut seeds = SeedList::new();
    let mut k: usize = 0;
    while k < degrees.len()
        invariant
            k <= degrees@.len(),
            seed_items(seeds) == seeds_after(degrees@.take(k as int)),
        decreases degrees@.len() - k,
    {
        let (id, degree) = degrees[k];
        proof {
            let t = degrees@.take(k as int + 1);
            assert(t.drop_last() =~= degrees@.take(k as int));
            assert(t.last() == degrees@[k as int]);
        }
        insert_seed(&mut seeds, id, degree);
        k += 1;
    }
    proof {
        assert(degrees@.take(degrees@.len() as int) =~= degrees@);
    }
    let items = seeds.as_slice();
    let mut out: Vec<(NodeId, usize)> = Vec::new();
    let mut i: usize = 0;
    while i < items.len()
        invariant
            i <= items@.len(),
            out@ == items@.take(i as int),
        decreases items@.len() - i,
    {
        out.push(items[i]);
        proof {
            assert(items@.take(i as int + 1) =~= items@.take(i as int).push(items@[i as int]));
        }
        i += 1;
    }
    proof {
        assert(items@.take(items@.len() as int) =~= items@);
    }
    out
}

} // verus!
