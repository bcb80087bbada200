//! Identifier compaction used by the HNSW secondary index, and the radix
//! sort that orders that index.
use vstd::prelude::*;
use vstd::set_lib::{lemma_int_range, lemma_map_size, lemma_subset_equality, set_int_range};

use crate::error::GenesisError;
use crate::signal::NodeId;

verus! {

/// Marker for the layer-0 coefficient codecs; it has no implementations
/// outside this crate.
pub trait Sealed {}

/// Wrapper that gives its value a cache line of its own, so that a hot value
/// does not share a line with its neighbours.
pub struct CachePadded<T> {
    /// The wrapped value.
    pub value: T,
}

impl<T> CachePadded<T> {
    /// Wraps a value.
    pub fn new(value: T) -> (c: Self)
        ensures
            c.value == value,
    {
        CachePadded { value }
    }
}

/// A node identifier that fits in 32 bits.
#[derive(Clone, Copy, Debug, PartialEq, Eq, PartialOrd, Ord, Structural)]
pub struct CompactNodeId(u32);

impl CompactNodeId {
    /// The 32-bit value.
    pub closed spec fn value(self) -> u32 {
        self.0
    }

    /// Two compact identifiers are equal exactly when their values are.
    pub proof fn lemma_value_injective(a: CompactNodeId, b: CompactNodeId)
        ensures
            (a == b) == (a.value() == b.value()),
    {
    }

    /// The 32-bit value.
    pub fn raw(self) -> (r: u32)
        ensures
            r == self.value(),
    {
        self.0
    }

    /// Compacts an identifier; fails with `InvariantViolation { axiom_id: 13 }`
    /// when it does not fit in 32 bits.
    pub fn try_from(id: NodeId) -> (r: Result<CompactNodeId, GenesisError>)
        ensures
            id.raw() <= u32::MAX ==> (r matches Ok(c) && c.value() == id.raw()),
            id.raw() > u32::MAX ==> r == Err::<CompactNodeId, GenesisError>(
                (GenesisError::InvariantViolation { axiom_id: 13 }),
            ),
    {
        let raw = id.get();
        if raw <= 0xffff_ffffu64 {
            Ok(CompactNodeId(raw as u32))
        } else {
            Err(GenesisError::InvariantViolation { axiom_id: 13 })
        }
    }
}

/// Compacts an identifier, or `None` when it does not fit in 32 bits.
pub fn try_compact_node_id(id: NodeId) -> (r: Option<CompactNodeId>)
    ensures
        id.raw() <= u32::MAX ==> (r matches Some(c) && c.value() == id.raw()),
        id.raw() > u32::MAX ==> r is None,
{
    let raw = id.get();
    if raw <= 0xffff_ffffu64 {
        Some(CompactNodeId(raw as u32))
    } else {
        None
    }
}


// ============================================================================
// LSD radix sort of the secondary index
// ============================================================================

/// An entry of the secondary index: compact identifier and internal slot.
pub type IndexEntry = (CompactNodeId, usize);

/// Sort key of an entry.
pub open spec fn entry_key(e: IndexEntry) -> u32 {
    e.0.value()
}

/// Byte `p` (0 = least significant) of the key.
pub open spec fn digit(e: IndexEntry, p: int) -> int {
    ((entry_key(e) >> ((8 * p) as u32)) & 0xffu32) as int
}

/// The `p` low bytes of the key.
pub open spec fn low(e: IndexEntry, p: int) -> int {
    let k = entry_key(e);
    if p <= 0 {
        0
    } else if p == 1 {
        (k & 0xffu32) as int
    } else if p == 2 {
        (k & 0xffffu32) as int
    } else if p == 3 {
        (k & 0xff_ffffu32) as int
    } else {
        k as int
    }
}

/// `256^p`.
pub open spec fn radix_base(p: int) -> int {
    if p <= 0 {
        1
    } else if p == 1 {
        256
    } else if p == 2 {
        65536
    } else {
        16777216
    }
}

proof fn lemma_low_step(e: IndexEntry, p: int)
    requires
        0 <= p < 4,
    ensures
        low(e, p + 1) == digit(e, p) * radix_base(p) + low(e, p),
        0 <= low(e, p) < radix_base(p),
        0 <= digit(e, p) < 256,
{
    let k = entry_key(e);
    if p == 0 {
        assert((k & 0xffu32) == ((k >> 0u32) & 0xffu32)) by (bit_vector);
        assert((k & 0xffu32) < 256) by (bit_vector);
    } else if p == 1 {
        assert((k & 0xffffu32) == ((k >> 8u32) & 0xffu32) * 256 + (k & 0xffu32)) by (bit_vector);
        assert((k & 0xffu32) < 256 && ((k >> 8u32) & 0xffu32) < 256) by (bit_vector);
    } else if p == 2 {
        assert((k & 0xff_ffffu32) == ((k >> 16u32) & 0xffu32) * 65536 + (k & 0xffffu32)) by (bit_vector);
        assert((k & 0xffffu32) < 65536 && ((k >> 16u32) & 0xffu32) < 256) by (bit_vector);
    } else {
        assert(k == ((k >> 24u32) & 0xffu32) * 16777216 + (k & 0xff_ffffu32)) by (bit_vector);
        assert((k & 0xff_ffffu32) < 16777216 && ((k >> 24u32) & 0xffu32) < 256) by (bit_vector);
    }
}

/// `(la, pa)` comes strictly before `(lb, pb)` lexicographically.
pub open spec fn lex_before(la: int, pa: int, lb: int, pb: int) -> bool {
    la < lb || (la == lb && pa < pb)
}

/// `s` is the entries of `orig` at positions `pos`, ordered by their `p` low
/// key bytes and then by original position.
pub open spec fn radix_state(orig: Seq<IndexEntry>, s: Seq<IndexEntry>, pos: Seq<int>, p: int) -> bool {
    &&& s.len() == orig.len()
    &&& pos.len() == orig.len()
    &&& forall|k: int| 0 <= k < s.len() ==> 0 <= #[trigger] pos[k] < orig.len() && s[k] == orig[pos[k]]
    &&& forall|k1: int, k2: int|
        0 <= k1 < k2 < s.len() ==> lex_before(low(#[trigger] s[k1], p), pos[k1], low(#[trigger] s[k2], p), pos[k2])
}

/// `out` is `orig` stably sorted by key: a rearrangement (through `pos`) in
/// which keys never decrease and equal keys keep their original order.
pub open spec fn stable_sorted(orig: Seq<IndexEntry>, out: Seq<IndexEntry>) -> bool {
    exists|pos: Seq<int>| radix_state(orig, out, pos, 4)
}

/// Number of positions `j < m` whose byte `p` is `b`.
pub open spec fn cnt(s: Seq<IndexEntry>, p: int, b: int, m: int) -> int
    decreases m,
{
    if m <= 0 {
        0
    } else {
        cnt(s, p, b, m - 1) + if digit(s[m - 1], p) == b {
            1int
        } else {
            0int
        }
    }
}

/// Number of positions `j < m` whose byte `p` is below `b`.
pub open spec fn below(s: Seq<IndexEntry>, p: int, b: int, m: int) -> int
    decreases m,
{
    if m <= 0 {
        0
    } else {
        below(s, p, b, m - 1) + if digit(s[m - 1], p) < b {
            1int
        } else {
            0int
        }
    }
}

proof fn lemma_cnt_bounds(s: Seq<IndexEntry>, p: int, b: int, m1: int, m2: int)
    requires
        0 <= m1 <= m2,
    ensures
        0 <= cnt(s, p, b, m1) <= cnt(s, p, b, m2),
        cnt(s, p, b, m2) - cnt(s, p, b, m1) <= m2 - m1,
        0 <= below(s, p, b, m1) <= below(s, p, b, m2),
        below(s, p, b, m2) - below(s, p, b, m1) <= m2 - m1,
    decreases m2 - m1,
{
    if m2 > m1 {
        lemma_cnt_bounds(s, p, b, m1, m2 - 1);
    } else {
        lemma_cnt_nonneg(s, p, b, m1);
    }
}

proof fn lemma_cnt_nonneg(s: Seq<IndexEntry>, p: int, b: int, m: int)
    ensures
        0 <= cnt(s, p, b, m),
        0 <= below(s, p, b, m),
    decreases m,
{
    if m > 0 {
        lemma_cnt_nonneg(s, p, b, m - 1);
    }
}

proof fn lemma_below_step(s: Seq<IndexEntry>, p: int, b: int, m: int)
    requires
        m >= 0,
    ensures
        below(s, p, b + 1, m) == below(s, p, b, m) + cnt(s, p, b, m),
    decreases m,
{
    if m > 0 {
        lemma_below_step(s, p, b, m - 1);
    }
}

proof fn lemma_below_mono(s: Seq<IndexEntry>, p: int, b1: int, b2: int, m: int)
    requires
        m >= 0,
        b1 <= b2,
    ensures
        below(s, p, b1, m) <= below(s, p, b2, m),
    decreases m,
{
    if m > 0 {
        lemma_below_mono(s, p, b1, b2, m - 1);
    }
}

proof fn lemma_below_all(s: Seq<IndexEntry>, p: int, m: int)
    requires
        0 <= m <= s.len(),
        0 <= p < 4,
    ensures
        below(s, p, 256, m) == m,
        below(s, p, 0, m) == 0,
    decreases m,
{
    if m > 0 {
        lemma_below_all(s, p, m - 1);
        lemma_low_step(s[m - 1], p);
    }
}

/// Where a counting pass on byte `p` puts the entry at position `j`.
pub open spec fn target(s: Seq<IndexEntry>, p: int, j: int) -> int {
    below(s, p, digit(s[j], p), s.len() as int) + cnt(s, p, digit(s[j], p), j)
}

proof fn lemma_target_range(s: Seq<IndexEntry>, p: int, j: int)
    requires
        0 <= j < s.len(),
        0 <= p < 4,
    ensures
        below(s, p, digit(s[j], p), s.len() as int) <= target(s, p, j) < below(s, p, digit(s[j], p) + 1, s.len() as int),
        0 <= target(s, p, j) < s.len(),
{
    let n = s.len() as int;
    let d = digit(s[j], p);
    lemma_cnt_nonneg(s, p, d, n);
    lemma_cnt_nonneg(s, p, d, j);
    lemma_low_step(s[j], p);
    lemma_below_step(s, p, d, n);
    lemma_cnt_bounds(s, p, d, j + 1, n);
    lemma_cnt_bounds(s, p, d, 0, j);
    assert(cnt(s, p, d, j + 1) == cnt(s, p, d, j) + 1);
    lemma_below_mono(s, p, d + 1, 256, n);
    lemma_below_all(s, p, n);
}

/// Entries with the same byte keep their order; entries with a smaller byte
/// go first.
proof fn lemma_target_order(s: Seq<IndexEntry>, p: int, j1: int, j2: int)
    requires
        0 <= j1 < s.len(),
        0 <= j2 < s.len(),
        0 <= p < 4,
        target(s, p, j1) < target(s, p, j2),
    ensures
        digit(s[j1], p) <= digit(s[j2], p),
        digit(s[j1], p) == digit(s[j2], p) ==> j1 < j2,
{
    let n = s.len() as int;
    let d1 = digit(s[j1], p);
    let d2 = digit(s[j2], p);
    lemma_target_range(s, p, j1);
    lemma_target_range(s, p, j2);
    if d1 > d2 {
        lemma_below_mono(s, p, d2 + 1, d1, n);
    }
    if d1 == d2 && j1 >= j2 {
        lemma_cnt_bounds(s, p, d1, j2, j1);
    }
}

proof fn lemma_target_injective(s: Seq<IndexEntry>, p: int, j1: int, j2: int)
    requires
        0 <= j1 < j2 < s.len(),
        0 <= p < 4,
    ensures
        target(s, p, j1) != target(s, p, j2),
{
    let n = s.len() as int;
    let d1 = digit(s[j1], p);
    let d2 = digit(s[j2], p);
    lemma_target_range(s, p, j1);
    lemma_target_range(s, p, j2);
    if d1 == d2 {
        lemma_cnt_bounds(s, p, d1, j1 + 1, j2);
        assert(cnt(s, p, d1, j1 + 1) == cnt(s, p, d1, j1) + 1);
    } else if d1 < d2 {
        lemma_below_mono(s, p, d1 + 1, d2, n);
    } else {
        lemma_below_mono(s, p, d2 + 1, d1, n);
    }
}

/// Every position below `n` is the target of some entry.
proof fn lemma_target_onto(s: Seq<IndexEntry>, p: int, i: int)
    requires
        0 <= i < s.len(),
        0 <= p < 4,
    ensures
        exists|j: int| 0 <= j < s.len() && #[trigger] target(s, p, j) == i,
{
    let n = s.len() as int;
    let dom = set_int_range(0, n);
    let f = |j: int| target(s, p, j);
    lemma_int_range(0, n);
    assert(vstd::relations::injective_on(f, dom)) by {
        assert forall|a: int, b: int| dom.contains(a) && dom.contains(b) && #[trigger] f(a) == #[trigger] f(b) implies a == b by {
            if a < b {
                lemma_target_injective(s, p, a, b);
            } else if b < a {
                lemma_target_injective(s, p, b, a);
            }
        }
    }
    let img = dom.map(f);
    lemma_map_size(dom, img, f);
    assert(img.subset_of(dom)) by {
        assert forall|t: int| img.contains(t) implies dom.contains(t) by {
            assert(exists|j: int| dom.contains(j) && f(j) == t);
            let j = choose|j: int| dom.contains(j) && f(j) == t;
            lemma_target_range(s, p, j);
            lemma_cnt_nonneg(s, p, digit(s[j], p), j);
            lemma_cnt_nonneg(s, p, digit(s[j], p), n);
            assert(target(s, p, j) == t);
            assert(0 <= t < n);
        }
    }
    lemma_subset_equality(img, dom);
    assert(img.contains(i));
    let j = choose|j: int| dom.contains(j) && f(j) == i;
    assert(target(s, p, j) == i);
}

/// A counting pass on byte `p` applied to a state ordered by `p` low bytes
/// gives a state ordered by `p + 1` low bytes.
proof fn lemma_pass_state(orig: Seq<IndexEntry>, src: Seq<IndexEntry>, pos: Seq<int>, p: int, dst: Seq<IndexEntry>) -> (pos2:
    Seq<int>)
    requires
        0 <= p < 4,
        radix_state(orig, src, pos, p),
        dst.len() == src.len(),
        forall|j: int| 0 <= j < src.len() ==> dst[#[trigger] target(src, p, j)] == src[j],
    ensures
        radix_state(orig, dst, pos2, p + 1),
{
    let n = src.len() as int;
    let inv = |i: int| choose|j: int| 0 <= j < n && #[trigger] target(src, p, j) == i;
    let pos2 = Seq::new(n as nat, |i: int| pos[inv(i)]);
    assert forall|k: int| 0 <= k < n implies 0 <= inv(k) < n && #[trigger] target(src, p, inv(k)) == k by {
        lemma_target_onto(src, p, k);
    }
    assert forall|k: int| 0 <= k < dst.len() implies 0 <= #[trigger] pos2[k] < orig.len() && dst[k] == orig[pos2[k]] by {
        assert(target(src, p, inv(k)) == k);
        assert(dst[target(src, p, inv(k))] == src[inv(k)]);
    }
    assert forall|k1: int, k2: int| 0 <= k1 < k2 < dst.len() implies lex_before(
        low(#[trigger] dst[k1], p + 1),
        pos2[k1],
        low(#[trigger] dst[k2], p + 1),
        pos2[k2],
    ) by {
        let j1 = inv(k1);
        let j2 = inv(k2);
        assert(target(src, p, j1) == k1 && target(src, p, j2) == k2);
        assert(dst[k1] == src[j1]);
        assert(dst[k2] == src[j2]);
        lemma_target_order(src, p, j1, j2);
        lemma_low_step(src[j1], p);
        lemma_low_step(src[j2], p);
        let d1 = digit(src[j1], p);
        let d2 = digit(src[j2], p);
        let l1 = low(src[j1], p);
        let l2 = low(src[j2], p);
        let b = radix_base(p);
        if d1 < d2 {
            assert(d1 * b + l1 < d2 * b + l2) by (nonlinear_arith)
                requires
                    d1 < d2,
                    0 <= l1 < b,
                    0 <= l2,
            ;
        } else {
            assert(j1 < j2);
        }
    }
    pos2
}

/// One stable counting-sort pass on byte `p` (bits `shift..shift + 8`).
fn counting_pass(src: &Vec<IndexEntry>, dst: &mut Vec<IndexEntry>, shift: u32, Ghost(p): Ghost<int>)
    requires
        0 <= p < 4,
        shift == 8 * p,
        old(dst)@.len() == src@.len(),
    ensures
        final(dst)@.len() == src@.len(),
        forall|j: int| 0 <= j < src@.len() ==> final(dst)@[#[trigger] target(src@, p, j)] == src@[j],
{
    let n = src.len();
    let ghost s = src@;
    let mut counts: Vec<usize> = Vec::new();
    while counts.len() < 256
        invariant
            counts@.len() <= 256,
            forall|b: int| 0 <= b < counts@.len() ==> counts@[b] == 0,
        decreases 256 - counts@.len(),
    {
        counts.push(0);
    }
    let mut k: usize = 0;
    while k < n
        invariant
            n == s.len(),
            s == src@,
            0 <= p < 4,
            shift == 8 * p,
            k <= n,
            counts@.len() == 256,
            forall|b: int| 0 <= b < 256 ==> counts@[b] == #[trigger] cnt(s, p, b, k as int),
        decreases n - k,
    {
        let b = ((src[k].0.raw() >> shift) & 0xffu32) as usize;
        proof {
            assert(b == digit(s[k as int], p));
            lemma_low_step(s[k as int], p);
            lemma_cnt_bounds(s, p, b as int, 0, k as int);
        }
        let c = counts[b];
        counts.set(b, c + 1);
        proof {
            assert forall|d: int| 0 <= d < 256 implies counts@[d] == #[trigger] cnt(s, p, d, k as int + 1) by {
                assert(cnt(s, p, d, k as int + 1) == cnt(s, p, d, k as int) + if digit(s[k as int], p) == d {
                    1int
                } else {
                    0int
                });
            }
        }
        k += 1;
    }
    let mut offsets: Vec<usize> = Vec::new();
    let mut running: usize = 0;
    proof {
        lemma_below_all(s, p, n as int);
    }
    let mut b: usize = 0;
    while b < 256
        invariant
            n == s.len(),
            0 <= p < 4,
            b <= 256,
            counts@.len() == 256,
            forall|c: int| 0 <= c < 256 ==> counts@[c] == #[trigger] cnt(s, p, c, n as int),
            offsets@.len() == b,
            forall|c: int| 0 <= c < b ==> offsets@[c] == #[trigger] below(s, p, c, n as int),
            running == below(s, p, b as int, n as int),
        decreases 256 - b,
    {
        offsets.push(running);
        proof {
            lemma_below_step(s, p, b as int, n as int);
            lemma_cnt_bounds(s, p, b as int + 1, 0, n as int);
        }
        running = running + counts[b];
        b += 1;
    }
    let mut k: usize = 0;
    while k < n
        invariant
            n == s.len(),
            s == src@,
            0 <= p < 4,
            shift == 8 * p,
            k <= n,
            dst@.len() == n,
            offsets@.len() == 256,
            forall|c: int| 0 <= c < 256 ==> offsets@[c] == below(s, p, c, n as int) + #[trigger] cnt(s, p, c, k as int),
            forall|j: int| 0 <= j < k ==> dst@[#[trigger] target(s, p, j)] == s[j],
        decreases n - k,
    {
        let e = src[k];
        let b = ((e.0.raw() >> shift) & 0xffu32) as usize;
        proof {
            assert(b == digit(s[k as int], p));
            lemma_low_step(s[k as int], p);
            lemma_target_range(s, p, k as int);
            assert forall|j: int| 0 <= j < k implies #[trigger] target(s, p, j) != target(s, p, k as int) by {
                lemma_target_injective(s, p, j, k as int);
            }
        }
        let at = offsets[b];
        let ghost before = dst@;
        dst.set(at, e);
        offsets.set(b, at + 1);
        proof {
            assert(at == target(s, p, k as int));
            assert forall|d: int| 0 <= d < 256 implies offsets@[d] == below(s, p, d, n as int) + #[trigger] cnt(
                s,
                p,
                d,
                k as int + 1,
            ) by {
                assert(cnt(s, p, d, k as int + 1) == cnt(s, p, d, k as int) + if digit(s[k as int], p) == d {
                    1int
                } else {
                    0int
                });
            }
            assert forall|j: int| 0 <= j < k + 1 implies dst@[#[trigger] target(s, p, j)] == s[j] by {
                if j < k {
                    lemma_target_range(s, p, j);
                    assert(target(s, p, j) != target(s, p, k as int));
                    assert(dst@[target(s, p, j)] == before[target(s, p, j)]);
                }
            }
        }
        k += 1;
    }
}

/// Sorts the secondary index by compact identifier, stably, with four
/// least-significant-byte-first counting passes.
pub fn radix_sort_node_ids(index: &mut Vec<IndexEntry>)
    ensures
        stable_sorted(old(index)@, final(index)@),
{
    let ghost orig = index@;
    let len = index.len();
    if len <= 1 {
        proof {
            let pos = Seq::new(len as nat, |i: int| i);
            assert(radix_state(orig, index@, pos, 4));
        }
        return;
    }
    let mut src: Vec<IndexEntry> = Vec::new();
    std::mem::swap(&mut src, index);
    let mut dst: Vec<IndexEntry> = Vec::new();
    while dst.len() < len
        invariant
            dst@.len() <= len,
        decreases len - dst@.len(),
    {
        dst.push((CompactNodeId(0), 0usize));
    }
    let ghost mut pos = Seq::new(len as nat, |i: int| i);
    proof {
        assert(radix_state(orig, src@, pos, 0));
    }
    let mut pass: u32 = 0;
    while pass < 4
        invariant
            pass <= 4,
            src@.len() == len,
            dst@.len() == len,
            orig.len() == len,
            radix_state(orig, src@, pos, pass as int),
        decreases 4 - pass,
    {
        let shift = pass * 8;
        counting_pass(&src, &mut dst, shift, Ghost(pass as int));
        proof {
            pos = lemma_pass_state(orig, src@, pos, pass as int, dst@);
        }
        std::mem::swap(&mut src, &mut dst);
        pass += 1;
    }
    *index = src;
}

} // verus!
