//! Proof-carrying mutations.
//!
//! Every structural self-modification must carry a [`Proof`]: a binary
//! witness of the axiomatic checks that were run, its BLAKE3 digest, and optional
//! causal links. [`AxiomGuard`] re-checks the digest and replays the witness.
//!
//! Witness frame format: `[axiom_id: u8][result: u8][ctx_len: u16 LE][ctx]`.
use arrayvec::ArrayVec;
use vstd::prelude::*;

pub use crate::buffers::Witness;
use crate::buffers::{
    blake3_digest, blake3_hash, frame_bytes, frames_as_slice, frames_len, frames_new, frames_push,
    premise_items, premises_as_slice, premises_len, premises_new, premises_push, witness_bytes,
};
use crate::error::GenesisError;
pub use crate::meta_consistency::{
    ConflictRule, MetaConsistencyError, MetaConsistencyValidator, NodeDomainStateConflictRule,
};
use crate::signal::NodeId;

verus! {

/// Inline capacity of the witness buffer in bytes.
pub const WITNESS_INLINE_CAPACITY: usize = 512usize;

/// Canonical hash of a [`Proof`] (BLAKE3, 32 bytes).
pub type ProofHash = [u8; 32];

/// Inline capacity for causal premises before spilling to the heap.
pub const PREMISES_INLINE_CAPACITY: usize = 4usize;

/// Mask of the valid identifier bits (`0..=6`).
pub const AXIOM_VALID_BITS: u8 = 0x7fu8;

/// Axiom identifiers that can be checked before a structural mutation.
///
/// The numeric identifier (declaration order, `0..=6`) is part of the
/// serialized witness format.
#[derive(Debug, Clone, Copy, PartialEq, Eq, Hash, Structural)]
pub enum AxiomID {
    /// Minkowski signature (+,-,-,-) preserved.
    MinkowskiSignature,
    /// H¹(M,F) = 0.
    CohomologyZero,
    /// λ₂ ≥ 0.1.
    AlgebraicConnectivity,
    /// Planck constant immutable.
    PlanckConstant,
    /// Every mutation carries a proof.
    ProofGuard,
    /// Dimensional expansion updates the Fisher metric.
    DualityConsistency,
    /// Energy admission before a new dimension.
    DimensionalAdmission,
}

impl AxiomID {
    /// Stable numeric identifier of this check.
    pub open spec fn spec_id(self) -> u8 {
        match self {
            AxiomID::MinkowskiSignature => 0,
            AxiomID::CohomologyZero => 1,
            AxiomID::AlgebraicConnectivity => 2,
            AxiomID::PlanckConstant => 3,
            AxiomID::ProofGuard => 4,
            AxiomID::DualityConsistency => 5,
            AxiomID::DimensionalAdmission => 6,
        }
    }

    /// Stable numeric identifier of this check (`0..=6`).
    pub fn id(self) -> (r: u8)
        ensures
            r == self.spec_id(),
    {
        match self {
            AxiomID::MinkowskiSignature => 0,
            AxiomID::CohomologyZero => 1,
            AxiomID::AlgebraicConnectivity => 2,
            AxiomID::PlanckConstant => 3,
            AxiomID::ProofGuard => 4,
            AxiomID::DualityConsistency => 5,
            AxiomID::DimensionalAdmission => 6,
        }
    }

    /// Invariants required for standard structural mutations.
    pub fn structural_required() -> (r: [AxiomID; 5])
        ensures
            r@ == seq![
                AxiomID::MinkowskiSignature,
                AxiomID::CohomologyZero,
                AxiomID::AlgebraicConnectivity,
                AxiomID::PlanckConstant,
                AxiomID::ProofGuard,
            ],
    {
        [
            AxiomID::MinkowskiSignature,
            AxiomID::CohomologyZero,
            AxiomID::AlgebraicConnectivity,
            AxiomID::PlanckConstant,
            AxiomID::ProofGuard,
        ]
    }

    /// Invariants required for dimensional expansion (adds duality and admission).
    pub fn expansion_required() -> (r: [AxiomID; 7])
        ensures
            r@ == seq![
                AxiomID::MinkowskiSignature,
                AxiomID::CohomologyZero,
                AxiomID::AlgebraicConnectivity,
                AxiomID::PlanckConstant,
                AxiomID::ProofGuard,
                AxiomID::DualityConsistency,
                AxiomID::DimensionalAdmission,
            ],
    {
        [
            AxiomID::MinkowskiSignature,
            AxiomID::CohomologyZero,
            AxiomID::AlgebraicConnectivity,
            AxiomID::PlanckConstant,
            AxiomID::ProofGuard,
            AxiomID::DualityConsistency,
            AxiomID::DimensionalAdmission,
        ]
    }
}

/// Single-bit mask of a check identifier.
pub open spec fn axiom_mask(id: u8) -> u8 {
    1u8 << id
}

/// Mask of all axioms listed in `s`.
pub open spec fn mask_of(s: Seq<AxiomID>) -> u8
    decreases s.len(),
{
    if s.len() == 0 {
        0u8
    } else {
        mask_of(s.drop_last()) | axiom_mask(s.last().spec_id())
    }
}

/// Compact mask of verified/required axioms: bit `i` stands for identifier `i`.
#[derive(Debug, Clone, Copy, PartialEq, Eq, Default, Structural)]
pub struct AxiomSet(pub u8);

/// Whether `a` is a member of the mask.
pub open spec fn mask_has(bits: u8, a: AxiomID) -> bool {
    bits & axiom_mask(a.spec_id()) != 0
}

impl AxiomSet {
    /// The empty set.
    pub fn empty() -> (s: AxiomSet)
        ensures
            s.0 == 0,
    {
        AxiomSet(0)
    }

    /// The set holding `ax` alone.
    pub fn from_axiom(ax: AxiomID) -> (s: AxiomSet)
        ensures
            s.0 == axiom_mask(ax.spec_id()),
    {
        AxiomSet(1u8 << ax.id())
    }

    /// The set of all axioms in the slice.
    pub fn from_slice(axioms: &[AxiomID]) -> (s: AxiomSet)
        ensures
            s.0 == mask_of(axioms@),
    {
        let mut set = AxiomSet::empty();
        let mut i: usize = 0;
        while i < axioms.len()
            invariant
                i <= axioms@.len(),
                set.0 == mask_of(axioms@.take(i as int)),
            decreases axioms@.len() - i,
        {
            proof {
                assert(axioms@.take(i as int + 1).drop_last() =~= axioms@.take(i as int));
            }
            set.insert(axioms[i]);
            i += 1;
        }
        proof {
            assert(axioms@.take(i as int) =~= axioms@);
        }
        set
    }

    /// The raw bit mask.
    pub fn bits(self) -> (b: u8)
        ensures
            b == self.0,
    {
        self.0
    }

    /// Adds `ax` to the set.
    pub fn insert(&mut self, ax: AxiomID)
        ensures
            final(self).0 == old(self).0 | axiom_mask(ax.spec_id()),
    {
        self.0 = self.0 | AxiomSet::from_axiom(ax).0;
    }

    /// Whether `ax` is in the set.
    pub fn contains(self, ax: AxiomID) -> (b: bool)
        ensures
            b == mask_has(self.0, ax),
    {
        (self.0 & AxiomSet::from_axiom(ax).0) != 0
    }

    /// Whether every member of `self` is a member of `other`.
    pub fn is_subset_of(self, other: AxiomSet) -> (b: bool)
        ensures
            b == (self.0 & other.0 == self.0),
    {
        (self.0 & other.0) == self.0
    }

    /// Whether every member of `other` is a member of `self`.
    pub fn is_superset_of(self, other: AxiomSet) -> (b: bool)
        ensures
            b == (other.0 & self.0 == other.0),
    {
        other.is_subset_of(self)
    }

    /// Union, restricted to the valid bits.
    pub fn union(self, other: AxiomSet) -> (s: AxiomSet)
        ensures
            s.0 == (self.0 | other.0) & AXIOM_VALID_BITS,
    {
        AxiomSet((self.0 | other.0) & AXIOM_VALID_BITS)
    }

    /// Whether the two sets share a member.
    pub fn intersects(self, other: AxiomSet) -> (b: bool)
        ensures
            b == (self.0 & other.0 != 0),
    {
        (self.0 & other.0) != 0
    }

    /// Set difference `self - other`, restricted to the valid bits.
    pub fn difference(self, other: AxiomSet) -> (s: AxiomSet)
        ensures
            s.0 == (self.0 & !other.0) & AXIOM_VALID_BITS,
    {
        AxiomSet((self.0 & !other.0) & AXIOM_VALID_BITS)
    }

    /// Whether all bits belong to the valid range `0..=6`.
    pub fn is_valid(self) -> (b: bool)
        ensures
            b == (self.0 & !AXIOM_VALID_BITS == 0),
    {
        (self.0 & !AXIOM_VALID_BITS) == 0
    }
}

/// Membership in a union of masks is membership in either.
proof fn lemma_mask_has_or(x: u8, y: u8, a: AxiomID)
    ensures
        mask_has(x | y, a) == (mask_has(x, a) || mask_has(y, a)),
{
    let m = axiom_mask(a.spec_id());
    assert(m == 1u8 << a.spec_id());
    let k = a.spec_id();
    assert(k < 8);
    assert(((x | y) & (1u8 << k) != 0) == ((x & (1u8 << k) != 0) || (y & (1u8 << k) != 0)))
        by (bit_vector)
        requires
            k < 8,
    ;
}

/// Two single-bit masks overlap exactly when the axioms are equal.
proof fn lemma_axiom_masks_disjoint(a: AxiomID, b: AxiomID)
    ensures
        mask_has(axiom_mask(b.spec_id()), a) == (a == b),
{
    let i = a.spec_id();
    let j = b.spec_id();
    assert(((1u8 << j) & (1u8 << i) != 0) == (i == j)) by (bit_vector)
        requires
            i < 7,
            j < 7,
    ;
}

/// The mask of a list of axioms has exactly the listed axioms as members.
pub proof fn lemma_mask_of_members(s: Seq<AxiomID>, a: AxiomID)
    ensures
        mask_has(mask_of(s), a) == s.contains(a),
    decreases s.len(),
{
    if s.len() == 0 {
        let k = a.spec_id();
        assert((0u8 & (1u8 << k)) == 0) by (bit_vector);
    } else {
        lemma_mask_of_members(s.drop_last(), a);
        lemma_mask_has_or(mask_of(s.drop_last()), axiom_mask(s.last().spec_id()), a);
        lemma_axiom_masks_disjoint(a, s.last());
        if s.drop_last().contains(a) {
            let w = choose|w: int| 0 <= w < s.drop_last().len() && s.drop_last()[w] == a;
            assert(s[w] == a);
        }
        if s.contains(a) && s.last() != a {
            let w = choose|w: int| 0 <= w < s.len() && s[w] == a;
            assert(w != s.len() - 1);
            assert(s.drop_last()[w] == a);
        }
    }
}

/// The mask of any list of axioms uses only the valid bits.
pub proof fn lemma_mask_of_valid(s: Seq<AxiomID>)
    ensures
        mask_of(s) & !AXIOM_VALID_BITS == 0,
    decreases s.len(),
{
    assert(0u8 & !AXIOM_VALID_BITS == 0) by (bit_vector);
    if s.len() > 0 {
        lemma_mask_of_valid(s.drop_last());
        let m = mask_of(s.drop_last());
        let k = s.last().spec_id();
        assert(k < 7);
        assert(mask_of(s) == m | axiom_mask(k));
        assert((m & !AXIOM_VALID_BITS == 0 && k < 7) ==> ((m | (1u8 << k)) & !AXIOM_VALID_BITS == 0)) by (bit_vector);
        assert(AXIOM_VALID_BITS == 0x7fu8);
    }
}

/// Set-algebra laws of [`AxiomSet`]: union and difference are restricted to
/// valid bits, and for every identifier, membership in the union is membership in
/// either operand, membership in the difference is membership in the first
/// and not in the second; every set is a subset of its union with another.
pub proof fn lemma_axiom_set_algebra(x: AxiomSet, y: AxiomSet, a: AxiomID)
    ensures
        ((x.0 | y.0) & AXIOM_VALID_BITS) & !AXIOM_VALID_BITS == 0,
        ((x.0 & !y.0) & AXIOM_VALID_BITS) & !AXIOM_VALID_BITS == 0,
        mask_has((x.0 | y.0) & AXIOM_VALID_BITS, a) == (mask_has(x.0, a) || mask_has(y.0, a)),
        mask_has((x.0 & !y.0) & AXIOM_VALID_BITS, a) == (mask_has(x.0, a) && !mask_has(y.0, a)),
        x.0 & !AXIOM_VALID_BITS == 0 ==> x.0 & ((x.0 | y.0) & AXIOM_VALID_BITS) == x.0,
        (x.0 | y.0) == (y.0 | x.0),
{
    let p = x.0;
    let q = y.0;
    let k = a.spec_id();
    assert(((p | q) & 0x7fu8) & !0x7fu8 == 0) by (bit_vector);
    assert(((p & !q) & 0x7fu8) & !0x7fu8 == 0) by (bit_vector);
    assert(k < 7 ==> ((((p | q) & 0x7fu8) & (1u8 << k) != 0) == ((p & (1u8 << k) != 0) || (q & (
    1u8 << k) != 0)))) by (bit_vector);
    assert(k < 7 ==> ((((p & !q) & 0x7fu8) & (1u8 << k) != 0) == ((p & (1u8 << k) != 0) && !(q & (
    1u8 << k) != 0)))) by (bit_vector);
    assert(p & !0x7fu8 == 0 ==> p & ((p | q) & 0x7fu8) == p) by (bit_vector);
    assert((p | q) == (q | p)) by (bit_vector);
}

// ============================================================================
// Witness format
// ============================================================================

/// Total length of the frame that starts at `w[0]`: header plus context.
pub open spec fn frame_len(w: Seq<u8>) -> int {
    4 + w[2] as int + 256 * (w[3] as int)
}

/// Mask of the axioms that a witness proves, or `None` when the witness is
/// malformed (truncated frame, negative result, unknown identifier).
pub open spec fn replayed_mask(w: Seq<u8>) -> Option<u8>
    decreases w.len(),
{
    if w.len() == 0 {
        Some(0u8)
    } else if w.len() < 4 {
        None
    } else if frame_len(w) > w.len() || w[1] != 1 || w[0] > 6 {
        None
    } else {
        match replayed_mask(w.subrange(frame_len(w), w.len() as int)) {
            Some(m) => Some(m | axiom_mask(w[0])),
            None => None,
        }
    }
}

/// Whether a witness replays and proves all the claimed axioms.
pub open spec fn replay_accepts(w: Seq<u8>, claimed: u8) -> bool {
    match replayed_mask(w) {
        Some(m) => claimed & m == claimed,
        None => false,
    }
}

/// A passing check frame with empty context.
pub open spec fn passing_frame(id: u8) -> Seq<u8> {
    seq![id, 1u8, 0u8, 0u8]
}

/// The frame a check serializes: identifier, result, empty context.
pub open spec fn check_frame(id: u8, ok: bool) -> Seq<u8> {
    seq![id, if ok { 1u8 } else { 0u8 }, 0u8, 0u8]
}

/// Appending a passing frame to a well-formed witness adds exactly the bit of `id`.
pub proof fn lemma_replay_append_passing(w: Seq<u8>, id: u8)
    requires
        replayed_mask(w) is Some,
        id <= 6,
    ensures
        replayed_mask(w + passing_frame(id)) == Some(
            replayed_mask(w)->Some_0 | axiom_mask(id),
        ),
    decreases w.len(),
{
    let f = passing_frame(id);
    let wf = w + f;
    if w.len() == 0 {
        assert(wf =~= f);
        assert(frame_len(wf) == 4);
        assert(wf.subrange(4, 4) =~= Seq::<u8>::empty());
        let z = axiom_mask(id);
        assert(0u8 | z == z) by (bit_vector);
        assert(replayed_mask(wf.subrange(4, 4)) == Some(0u8));
        assert(wf[0] == id && wf[1] == 1);
        assert(replayed_mask(wf) == Some(0u8 | z));
        assert(replayed_mask(w) == Some(0u8));
    } else {
        let n = frame_len(w);
        assert(wf[0] == w[0] && wf[1] == w[1] && wf[2] == w[2] && wf[3] == w[3]);
        assert(frame_len(wf) == n);
        let rest = w.subrange(n, w.len() as int);
        assert(wf.subrange(n, wf.len() as int) =~= rest + f);
        lemma_replay_append_passing(rest, id);
        let m = replayed_mask(rest)->Some_0;
        let a = axiom_mask(w[0]);
        let b = axiom_mask(id);
        assert((m | b) | a == (m | a) | b) by (bit_vector);
        assert(wf.len() >= 4);
        assert(!(frame_len(wf) > wf.len() || wf[1] != 1 || wf[0] > 6));
        assert(replayed_mask(wf.subrange(n, wf.len() as int)) == Some(m | b));
        assert(replayed_mask(wf) == Some((m | b) | a));
        assert(replayed_mask(w) == Some(m | a));
    }
}

/// A replayed mask only uses the valid identifier bits.
pub proof fn lemma_replayed_mask_valid(w: Seq<u8>)
    requires
        replayed_mask(w) is Some,
    ensures
        replayed_mask(w)->Some_0 & !AXIOM_VALID_BITS == 0,
    decreases w.len(),
{
    assert(0u8 & !AXIOM_VALID_BITS == 0) by (bit_vector);
    if w.len() > 0 {
        let rest = w.subrange(frame_len(w), w.len() as int);
        lemma_replayed_mask_valid(rest);
        let m = replayed_mask(rest)->Some_0;
        let k = w[0];
        assert(replayed_mask(w)->Some_0 == m | axiom_mask(k));
        assert((m & !AXIOM_VALID_BITS == 0 && k <= 6) ==> ((m | (1u8 << k)) & !AXIOM_VALID_BITS == 0)) by (bit_vector);
        assert(AXIOM_VALID_BITS == 0x7fu8);
    }
}


/// One witness frame as bytes: the check identifier, the result byte, the
/// context length as two little-endian bytes, then the context.
pub open spec fn encode_frame(id: u8, result: u8, ctx: Seq<u8>) -> Seq<u8> {
    seq![id, result, (ctx.len() % 256) as u8, (ctx.len() / 256) as u8] + ctx
}

/// A sequence of frames `(identifier, result, context)` laid end to end.
pub open spec fn encode_frames(fs: Seq<(u8, u8, Seq<u8>)>) -> Seq<u8>
    decreases fs.len(),
{
    if fs.len() == 0 {
        Seq::empty()
    } else {
        encode_frame(fs[0].0, fs[0].1, fs[0].2) + encode_frames(fs.drop_first())
    }
}

/// Every context of `fs` fits the two-byte length field.
pub open spec fn frames_fit(fs: Seq<(u8, u8, Seq<u8>)>) -> bool {
    forall|k: int| 0 <= k < fs.len() ==> (#[trigger] fs[k]).2.len() < 65536
}

/// Replaying a frame followed by more bytes: the frame counts only when its
/// result byte is 1 and its identifier names a check, and then it adds its
/// check to whatever the rest proves; otherwise the whole witness fails.
pub proof fn lemma_replay_frame(id: u8, result: u8, ctx: Seq<u8>, rest: Seq<u8>)
    requires
        ctx.len() < 65536,
    ensures
        replayed_mask(encode_frame(id, result, ctx) + rest) == (if result == 1 && id <= 6 {
            or_mask(replayed_mask(rest), 1u8 << id)
        } else {
            None
        }),
{
    let f = encode_frame(id, result, ctx);
    let w = f + rest;
    let n = ctx.len();
    assert(w[0] == id && w[1] == result);
    assert(w[2] == (n % 256) as u8 && w[3] == (n / 256) as u8);
    assert(frame_len(w) == 4 + n);
    assert(w.subrange(4 + n as int, w.len() as int) =~= rest);
}

/// A witness in which some frame reports a negative result (any result byte
/// other than 1) never replays, whatever follows it: no claimed set of
/// checks is accepted.
pub proof fn lemma_failed_frame_never_replays(
    fs: Seq<(u8, u8, Seq<u8>)>,
    k: int,
    rest: Seq<u8>,
    claimed: u8,
)
    requires
        frames_fit(fs),
        0 <= k < fs.len(),
        fs[k].1 != 1,
    ensures
        replayed_mask(encode_frames(fs) + rest) is None,
        !replay_accepts(encode_frames(fs) + rest, claimed),
    decreases fs.len(),
{
    let tail = fs.drop_first();
    assert(fs[0].2.len() < 65536);
    assert(encode_frames(fs) + rest =~= encode_frame(fs[0].0, fs[0].1, fs[0].2) + (encode_frames(tail)
        + rest));
    lemma_replay_frame(fs[0].0, fs[0].1, fs[0].2, encode_frames(tail) + rest);
    if k > 0 {
        assert(frames_fit(tail)) by {
            assert forall|j: int| 0 <= j < tail.len() implies (#[trigger] tail[j]).2.len() < 65536 by {
                assert(tail[j] == fs[j + 1]);
            }
        }
        assert(tail[k - 1] == fs[k]);
        lemma_failed_frame_never_replays(tail, k - 1, rest, claimed);
    }
}

/// A replay result with an extra mask of already-verified axioms folded in.
pub open spec fn or_mask(o: Option<u8>, v: u8) -> Option<u8> {
    match o {
        Some(m) => Some(m | v),
        None => None,
    }
}

/// Identifier decoding of the witness format.
fn axiom_from_id(raw: u8) -> (r: Option<AxiomID>)
    ensures
        raw <= 6 ==> r is Some && r->Some_0.spec_id() == raw,
        raw > 6 ==> r is None,
{
    match raw {
        0 => Some(AxiomID::MinkowskiSignature),
        1 => Some(AxiomID::CohomologyZero),
        2 => Some(AxiomID::AlgebraicConnectivity),
        3 => Some(AxiomID::PlanckConstant),
        4 => Some(AxiomID::ProofGuard),
        5 => Some(AxiomID::DualityConsistency),
        6 => Some(AxiomID::DimensionalAdmission),
        _ => None,
    }
}

/// Replays a witness frame by frame and checks that every claimed axiom was
/// proved by a frame with `result == 1`.
pub fn replay_witness(witness: &[u8], claimed: AxiomSet) -> (r: bool)
    ensures
        r == replay_accepts(witness@, claimed.0),
{
    let w = Ghost(witness@);
    let mut cursor: usize = 0;
    let mut verified = AxiomSet::empty();
    proof {
        assert(w@.subrange(0, w@.len() as int) =~= w@);
        if let Some(m) = replayed_mask(w@) {
            assert(m | 0u8 == m) by (bit_vector);
        }
    }
    while cursor < witness.len()
        invariant
            w@ == witness@,
            cursor <= w@.len(),
            replayed_mask(w@) == or_mask(
                replayed_mask(w@.subrange(cursor as int, w@.len() as int)),
                verified.0,
            ),
        decreases w@.len() - cursor,
    {
        let remaining = witness.len() - cursor;
        let ghost tail = w@.subrange(cursor as int, w@.len() as int);
        if remaining < 4 {
            return false;
        }
        let raw_id = witness[cursor];
        let result = witness[cursor + 1];
        let ctx_len: usize = witness[cursor + 2] as usize + 256 * (witness[cursor + 3] as usize);
        proof {
            assert(tail[0] == raw_id && tail[1] == result);
            assert(frame_len(tail) == 4 + ctx_len);
        }
        if ctx_len > remaining - 4 || result != 1 {
            return false;
        }
        let next = cursor + 4 + ctx_len;
        let decoded = axiom_from_id(raw_id);
        match decoded {
            None => {
                return false;
            },
            Some(ax) => {
                proof {
                    let rest = w@.subrange(next as int, w@.len() as int);
                    assert(tail.subrange(frame_len(tail), tail.len() as int) =~= rest);
                    if let Some(m) = replayed_mask(rest) {
                        let a = axiom_mask(raw_id);
                        let v = verified.0;
                        assert((m | a) | v == m | (v | a)) by (bit_vector);
                    }
                }
                verified.insert(ax);
                cursor = next;
            },
        }
    }
    proof {
        assert(w@.subrange(cursor as int, w@.len() as int) =~= Seq::<u8>::empty());
        let v = verified.0;
        assert(0u8 | v == v) by (bit_vector);
    }
    (claimed.bits() & verified.bits()) == claimed.bits()
}

/// Elementwise equality of two digests.
pub fn hash_eq(a: &ProofHash, b: &ProofHash) -> (r: bool)
    ensures
        r == (a@ == b@),
{
    let mut i: usize = 0;
    while i < 32
        invariant
            i <= 32,
            a@.len() == 32,
            b@.len() == 32,
            forall|k: int| 0 <= k < i ==> a@[k] == b@[k],
        decreases 32 - i,
    {
        if a[i] != b[i] {
            return false;
        }
        i += 1;
    }
    proof {
        assert(a@ =~= b@);
    }
    true
}

// ============================================================================
// Premises
// ============================================================================

/// Causal premises of a proof: inline for up to four hashes, heap beyond.
#[derive(Debug)]
pub enum Premises {
    /// Stack-only storage for short causal histories.
    Small(ArrayVec<ProofHash, 4>),
    /// Heap spill when more premises are needed.
    Large(Vec<ProofHash>),
}

impl Premises {
    /// The premises, in insertion order.
    pub open spec fn items(&self) -> Seq<ProofHash> {
        match self {
            Premises::Small(a) => premise_items(*a),
            Premises::Large(v) => v@,
        }
    }

    /// An empty premise list.
    pub fn new() -> (p: Premises)
        ensures
            p.items() == Seq::<ProofHash>::empty(),
            p is Small,
    {
        Premises::Small(premises_new())
    }

    /// Number of premises.
    pub fn len(&self) -> (n: usize)
        ensures
            n == self.items().len(),
    {
        match self {
            Premises::Small(a) => premises_len(a),
            Premises::Large(v) => v.len(),
        }
    }

    /// Whether there is no premise.
    pub fn is_empty(&self) -> (b: bool)
        ensures
            b == (self.items().len() == 0),
    {
        self.len() == 0
    }

    /// Appends a premise; spills to the heap when the inline buffer is full.
    pub fn push(&mut self, premise: ProofHash)
        ensures
            final(self).items() == old(self).items().push(premise),
            *old(self) is Small && old(self).items().len() < PREMISES_INLINE_CAPACITY ==> *final(self) is Small,
            *old(self) is Large ==> *final(self) is Large,
    {
        let mut current = Premises::Large(Vec::new());
        core::mem::swap(&mut current, self);
        let next = match current {
            Premises::Small(mut items) => {
                if premises_len(&items) < PREMISES_INLINE_CAPACITY {
                    premises_push(&mut items, premise);
                    Premises::Small(items)
                } else {
                    let s = premises_as_slice(&items);
                    let mut large: Vec<ProofHash> = Vec::with_capacity(s.len() + 1);
                    let mut i: usize = 0;
                    while i < s.len()
                        invariant
                            i <= s@.len(),
                            large@ == s@.take(i as int),
                        decreases s@.len() - i,
                    {
                        large.push(s[i]);
                        proof {
                            assert(s@.take(i as int + 1) =~= s@.take(i as int).push(s@[i as int]));
                        }
                        i += 1;
                    }
                    proof {
                        assert(s@.take(i as int) =~= s@);
                    }
                    large.push(premise);
                    Premises::Large(large)
                }
            },
            Premises::Large(mut items) => {
                items.push(premise);
                Premises::Large(items)
            },
        };
        *self = next;
    }

    /// The premises as a slice, in insertion order.
    pub fn as_slice(&self) -> (s: &[ProofHash])
        ensures
            s@ == self.items(),
    {
        match self {
            Premises::Small(a) => premises_as_slice(a),
            Premises::Large(v) => v.as_slice(),
        }
    }

    /// Builds premises from a vector: inline when it fits, heap otherwise.
    pub fn from_vec(value: Vec<ProofHash>) -> (p: Premises)
        ensures
            p.items() == value@,
            (value@.len() <= PREMISES_INLINE_CAPACITY) == (p is Small),
    {
        if value.len() <= PREMISES_INLINE_CAPACITY {
            let mut small = premises_new();
            let mut i: usize = 0;
            while i < value.len()
                invariant
                    i <= value@.len(),
                    value@.len() <= 4,
                    premise_items(small) == value@.take(i as int),
                decreases value@.len() - i,
            {
                premises_push(&mut small, value[i]);
                proof {
                    assert(value@.take(i as int + 1) =~= value@.take(i as int).push(value@[i as int]));
                }
                i += 1;
            }
            proof {
                assert(value@.take(i as int) =~= value@);
            }
            Premises::Small(small)
        } else {
            Premises::Large(value)
        }
    }
}

impl Default for Premises {
    /// An empty premise list.
    fn default() -> (p: Premises)
        ensures
            p.items() == Seq::<ProofHash>::empty(),
            p is Small,
    {
        Premises::new()
    }
}

impl Clone for Premises {
    fn clone(&self) -> (c: Premises)
        ensures
            c.items() == self.items(),
    {
        let s = self.as_slice();
        let mut v: Vec<ProofHash> = Vec::new();
        let mut i: usize = 0;
        while i < s.len()
            invariant
                i <= s@.len(),
                v@ == s@.take(i as int),
            decreases s@.len() - i,
        {
            v.push(s[i]);
            proof {
                assert(s@.take(i as int + 1) =~= s@.take(i as int).push(s@[i as int]));
            }
            i += 1;
        }
        proof {
            assert(s@.take(i as int) =~= s@);
        }
        Premises::from_vec(v)
    }
}

/// Optional historical-consistency metadata of a [`Proof`].
#[derive(Debug, Clone, PartialEq, Eq)]
pub struct ProofMeta {
    /// Node that originated the certified mutation or assertion.
    pub origin_node: NodeId,
    /// Stable hash of the logical target domain.
    pub target_domain_hash: ProofHash,
    /// Hash of the resulting state after applying the proof.
    pub resulting_state_hash: ProofHash,
}

// ============================================================================
// Proof
// ============================================================================

/// Certificate that a mutation preserves the axiomatic invariants.
///
/// `hash` is the BLAKE3 digest of `witness`.
#[derive(Debug, Clone)]
pub struct Proof {
    /// Axioms checked positively in this proof.
    pub axioms_checked: AxiomSet,
    /// Serialized trace of the checks.
    pub witness: Witness,
    /// Generation timestamp in nanoseconds.
    pub timestamp: u64,
    /// BLAKE3 digest of `witness`.
    pub hash: ProofHash,
    /// Optional parent proof in the causal chain.
    pub parent_proof_hash: Option<ProofHash>,
    /// Explicit causal premises (DAG edges).
    pub premises: Premises,
    /// Optional meta-consistency layer.
    pub meta: Option<ProofMeta>,
}

impl Proof {
    /// Builds a proof, computing the BLAKE3 digest of the witness.
    pub fn new(axioms: AxiomSet, witness: Witness, timestamp: u64) -> (p: Proof)
        ensures
            p.axioms_checked == axioms,
            witness_bytes(p.witness) == witness_bytes(witness),
            p.timestamp == timestamp,
            p.hash@ == blake3_digest(witness_bytes(witness)),
            p.parent_proof_hash is None,
            p.premises.items().len() == 0,
            p.meta is None,
    {
        let hash = blake3_hash(witness.as_slice());
        Proof {
            axioms_checked: axioms,
            witness,
            timestamp,
            hash,
            parent_proof_hash: None,
            premises: Premises::new(),
            meta: None,
        }
    }

    /// Whether the stored hash equals BLAKE3 of the witness.
    pub fn is_internally_consistent(&self) -> (b: bool)
        ensures
            b == (blake3_digest(witness_bytes(self.witness)) == self.hash@),
    {
        let digest = blake3_hash(self.witness.as_slice());
        hash_eq(&digest, &self.hash)
    }

    /// Freshness against a window: not from the future and younger than `max_age_ns`.
    pub fn is_fresh_within(&self, current_ns: u64, max_age_ns: u64) -> (b: bool)
        ensures
            b == (current_ns >= self.timestamp && current_ns - self.timestamp < max_age_ns),
    {
        current_ns >= self.timestamp && current_ns - self.timestamp < max_age_ns
    }

    /// Attaches causal links without altering the base hash.
    pub fn with_causal_links(self, parent_proof_hash: Option<ProofHash>, premises: Premises) -> (p:
        Proof)
        ensures
            p.axioms_checked == self.axioms_checked,
            witness_bytes(p.witness) == witness_bytes(self.witness),
            p.timestamp == self.timestamp,
            p.hash == self.hash,
            p.parent_proof_hash == parent_proof_hash,
            p.premises.items() == premises.items(),
            p.meta == self.meta,
    {
        let mut s = self;
        s.parent_proof_hash = parent_proof_hash;
        s.premises = premises;
        s
    }

    /// Attaches domain metadata for historical validation.
    pub fn with_meta(self, meta: ProofMeta) -> (p: Proof)
        ensures
            p.axioms_checked == self.axioms_checked,
            witness_bytes(p.witness) == witness_bytes(self.witness),
            p.timestamp == self.timestamp,
            p.hash == self.hash,
            p.parent_proof_hash == self.parent_proof_hash,
            p.premises.items() == self.premises.items(),
            p.meta == Some(meta),
    {
        let mut s = self;
        s.meta = Some(meta);
        s
    }
}


// ============================================================================
// AxiomGuard
// ============================================================================

/// Outcome of verifying `p` against the required axioms:
/// 1. the digest must match the witness (else `ProofInvalid { axiom_id: 255 }`);
/// 2. the claimed mask must use only valid bits (else `ProofInvalid { 255 }`);
/// 3. every required axiom must be claimed (else `ProofInvalid` naming the
///    lowest missing axiom);
/// 4. the witness must replay and prove every claimed axiom (else `ProofInvalid { 255 }`).
pub open spec fn spec_verify(p: Proof, required: Seq<AxiomID>) -> Result<(), GenesisError> {
    let bytes = witness_bytes(p.witness);
    let req = mask_of(required);
    let have = p.axioms_checked.0;
    if blake3_digest(bytes) != p.hash@ {
        Err(GenesisError::ProofInvalid { axiom_id: 255 })
    } else if have & !AXIOM_VALID_BITS != 0 {
        Err(GenesisError::ProofInvalid { axiom_id: 255 })
    } else if req & have != req {
        Err(
            GenesisError::ProofInvalid {
                axiom_id: vstd::std_specs::bits::u8_trailing_zeros(
                    (req & !have) & AXIOM_VALID_BITS,
                ) as u8,
            },
        )
    } else if !replay_accepts(bytes, have) {
        Err(GenesisError::ProofInvalid { axiom_id: 255 })
    } else {
        Ok(())
    }
}

/// A proof whose witness holds a frame with a negative result is rejected
/// whatever axioms are required.
pub proof fn lemma_failed_frame_proof_rejected(
    p: Proof,
    required: Seq<AxiomID>,
    fs: Seq<(u8, u8, Seq<u8>)>,
    k: int,
    rest: Seq<u8>,
)
    requires
        frames_fit(fs),
        0 <= k < fs.len(),
        fs[k].1 != 1,
        witness_bytes(p.witness) == encode_frames(fs) + rest,
    ensures
        spec_verify(p, required) is Err,
{
    lemma_failed_frame_never_replays(fs, k, rest, p.axioms_checked.0);
}

/// Verifier of [`Proof`] certificates.
pub struct AxiomGuard;

/// Typed token proving that a proof was verified for mutation type `M`.
///
/// Only [`AxiomGuard::verify_for`] and [`AxiomGuard::verify_for_result`] construct it.
pub struct VerifiedProof<'mutation, M: Mutation> {
    mutation: core::marker::PhantomData<&'mutation M>,
}

/// A structural mutation: `propose` checks invariants and builds a [`Proof`];
/// `apply` runs only with a token issued by [`AxiomGuard::verify_for`].
pub trait Mutation {
    /// Checks the invariants and produces a certified proof.
    fn propose(&self) -> Result<Proof, GenesisError>;

    /// Applies the mutation; requires a verification token.
    fn apply(&self, token: VerifiedProof<'_, Self>) -> Result<(), GenesisError> where Self: Sized;

    /// Static name of the mutation, for error messages.
    fn name(&self) -> &'static str;
}

impl AxiomGuard {
    pub(crate) fn verify_with_error(proof: &Proof, required: &[AxiomID]) -> (r: Result<(), GenesisError>)
        ensures
            r == spec_verify(*proof, required@),
    {
        if !proof.is_internally_consistent() {
            return Err(GenesisError::ProofInvalid { axiom_id: u8::MAX });
        }
        if !proof.axioms_checked.is_valid() {
            return Err(GenesisError::ProofInvalid { axiom_id: u8::MAX });
        }
        let required_mask = AxiomSet::from_slice(required);
        if (required_mask.bits() & proof.axioms_checked.bits()) != required_mask.bits() {
            let missing = required_mask.difference(proof.axioms_checked).bits();
            let tz = missing.trailing_zeros();
            proof {
                vstd::std_specs::bits::axiom_u8_trailing_zeros(missing);
            }
            let axiom_id = tz as u8;
            return Err(GenesisError::ProofInvalid { axiom_id });
        }
        if !replay_witness(proof.witness.as_slice(), proof.axioms_checked) {
            return Err(GenesisError::ProofInvalid { axiom_id: u8::MAX });
        }
        Ok(())
    }

    /// Whether `proof` is intact and covers every axiom in `required`.
    pub fn verify(proof: &Proof, required: &[AxiomID]) -> (b: bool)
        ensures
            b == (spec_verify(*proof, required@) is Ok),
    {
        AxiomGuard::verify_with_error(proof, required).is_ok()
    }

    /// Verifies and issues a typed token; `None` exactly when verification fails.
    pub fn verify_for<'p, M: Mutation>(proof: &'p Proof, required: &[AxiomID]) -> (r: Option<
        VerifiedProof<'p, M>,
    >)
        ensures
            r is Some == (spec_verify(*proof, required@) is Ok),
    {
        match AxiomGuard::verify_for_result::<M>(proof, required) {
            Ok(token) => Some(token),
            Err(_) => None,
        }
    }

    /// Verifies and issues a typed token, or the structured `ProofInvalid` error.
    pub fn verify_for_result<'p, M: Mutation>(proof: &'p Proof, required: &[AxiomID]) -> (r: Result<
        VerifiedProof<'p, M>,
        GenesisError,
    >)
        ensures
            r is Ok == (spec_verify(*proof, required@) is Ok),
            r is Err ==> spec_verify(*proof, required@) == Err::<(), GenesisError>(r->Err_0),
    {
        match AxiomGuard::verify_with_error(proof, required) {
            Ok(()) => Ok(VerifiedProof { mutation: core::marker::PhantomData }),
            Err(e) => Err(e),
        }
    }
}

/// A proof whose witness replays to exactly its claimed axioms and whose
/// digest matches verifies against `required` exactly when every required
/// axiom is claimed; otherwise it fails naming the lowest missing axiom.
pub proof fn lemma_sound_proof_verification(p: Proof, required: Seq<AxiomID>)
    requires
        replayed_mask(witness_bytes(p.witness)) == Some(p.axioms_checked.0),
        blake3_digest(witness_bytes(p.witness)) == p.hash@,
    ensures
        (spec_verify(p, required) is Ok) == (mask_of(required) & p.axioms_checked.0 == mask_of(
            required,
        )),
        (spec_verify(p, required) is Ok) == (forall|a: AxiomID|
            required.contains(a) ==> #[trigger] mask_has(p.axioms_checked.0, a)),
{
    lemma_replayed_mask_valid(witness_bytes(p.witness));
    let have = p.axioms_checked.0;
    assert(have & have == have) by (bit_vector);
    lemma_mask_subset_members(required, have);
}

/// `mask_of(s) ⊆ have` exactly when every listed axiom is a member of `have`.
proof fn lemma_mask_subset_members(s: Seq<AxiomID>, have: u8)
    ensures
        (mask_of(s) & have == mask_of(s)) == (forall|a: AxiomID|
            s.contains(a) ==> #[trigger] mask_has(have, a)),
    decreases s.len(),
{
    if s.len() == 0 {
        assert(0u8 & have == 0u8) by (bit_vector);
    } else {
        let init = s.drop_last();
        let l = s.last();
        lemma_mask_subset_members(init, have);
        let m = mask_of(init);
        let k = l.spec_id();
        assert(k < 7);
        assert(((m | (1u8 << k)) & have == (m | (1u8 << k))) == ((m & have == m) && (have & (1u8
            << k) != 0))) by (bit_vector)
            requires
                k < 7,
        ;
        if forall|a: AxiomID| s.contains(a) ==> #[trigger] mask_has(have, a) {
            assert forall|a: AxiomID| init.contains(a) implies #[trigger] mask_has(have, a) by {
                let w = choose|w: int| 0 <= w < init.len() && init[w] == a;
                assert(s[w] == a);
            }
            assert(s[s.len() - 1] == l);
            assert(mask_has(have, l));
        }
        if (m & have == m) && mask_has(have, l) {
            assert forall|a: AxiomID| s.contains(a) implies #[trigger] mask_has(have, a) by {
                let w = choose|w: int| 0 <= w < s.len() && s[w] == a;
                if w < s.len() - 1 {
                    assert(init[w] == a);
                }
            }
        }
    }
}

/// A tampered proof (digest not matching its witness) never verifies.
pub proof fn lemma_tampered_proof_rejected(p: Proof, required: Seq<AxiomID>)
    requires
        blake3_digest(witness_bytes(p.witness)) != p.hash@,
    ensures
        spec_verify(p, required) == Err::<(), GenesisError>(
            GenesisError::ProofInvalid { axiom_id: 255 },
        ),
{
}

// ============================================================================
// WitnessBuilder
// ============================================================================

enum WitnessBuffer {
    Small(ArrayVec<u8, 512>),
    Large(Vec<u8>),
}

impl WitnessBuffer {
    spec fn bytes(&self) -> Seq<u8> {
        match self {
            WitnessBuffer::Small(a) => frame_bytes(*a),
            WitnessBuffer::Large(v) => v@,
        }
    }
}

/// Builds a binary witness by running axiom checks in sequence.
///
/// Each [`check`](WitnessBuilder::check) serializes a frame
/// `[axiom_id, result, 0, 0]`; a failing check returns an error.
pub struct WitnessBuilder {
    frames: WitnessBuffer,
    axioms: AxiomSet,
}

impl WitnessBuilder {
    /// The bytes serialized so far.
    pub closed spec fn bytes(&self) -> Seq<u8> {
        self.frames.bytes()
    }

    /// The axioms whose checks passed so far.
    pub closed spec fn checked(&self) -> AxiomSet {
        self.axioms
    }

    /// Every serialized frame passed and the witness proves exactly the checked axioms.
    pub open spec fn is_clean(&self) -> bool {
        replayed_mask(self.bytes()) == Some(self.checked().0)
    }

    /// An empty builder.
    pub fn new() -> (b: WitnessBuilder)
        ensures
            b.bytes() == Seq::<u8>::empty(),
            b.checked().0 == 0,
            b.is_clean(),
    {
        WitnessBuilder { frames: WitnessBuffer::Small(frames_new()), axioms: AxiomSet::empty() }
    }

    fn ensure_capacity(&mut self, additional: usize)
        requires
            additional <= WITNESS_INLINE_CAPACITY,
        ensures
            final(self).bytes() == old(self).bytes(),
            final(self).checked() == old(self).checked(),
            final(self).frames is Small ==> final(self).bytes().len() + additional <= 512,
    {
        let mut current = WitnessBuffer::Large(Vec::new());
        core::mem::swap(&mut current, &mut self.frames);
        let next = match current {
            WitnessBuffer::Small(frames) => {
                if frames_len(&frames) + additional > WITNESS_INLINE_CAPACITY {
                    let s = frames_as_slice(&frames);
                    let mut large: Vec<u8> = Vec::with_capacity(s.len() + additional);
                    let mut i: usize = 0;
                    while i < s.len()
                        invariant
                            i <= s@.len(),
                            large@ == s@.take(i as int),
                        decreases s@.len() - i,
                    {
                        large.push(s[i]);
                        proof {
                            assert(s@.take(i as int + 1) =~= s@.take(i as int).push(s@[i as int]));
                        }
                        i += 1;
                    }
                    proof {
                        assert(s@.take(i as int) =~= s@);
                    }
                    WitnessBuffer::Large(large)
                } else {
                    WitnessBuffer::Small(frames)
                }
            },
            WitnessBuffer::Large(v) => WitnessBuffer::Large(v),
        };
        self.frames = next;
    }

    fn push_byte(&mut self, byte: u8)
        ensures
            final(self).bytes() == old(self).bytes().push(byte),
            final(self).checked() == old(self).checked(),
    {
        self.ensure_capacity(1);
        let mut current = WitnessBuffer::Large(Vec::new());
        core::mem::swap(&mut current, &mut self.frames);
        let next = match current {
            WitnessBuffer::Small(mut frames) => {
                frames_push(&mut frames, byte);
                WitnessBuffer::Small(frames)
            },
            WitnessBuffer::Large(mut v) => {
                v.push(byte);
                WitnessBuffer::Large(v)
            },
        };
        self.frames = next;
    }

    fn extend_bytes(&mut self, bytes: &[u8])
        requires
            bytes@.len() <= WITNESS_INLINE_CAPACITY,
        ensures
            final(self).bytes() == old(self).bytes() + bytes@,
            final(self).checked() == old(self).checked(),
    {
        self.ensure_capacity(bytes.len());
        let mut i: usize = 0;
        while i < bytes.len()
            invariant
                i <= bytes@.len(),
                self.bytes() == old(self).bytes() + bytes@.take(i as int),
                self.checked() == old(self).checked(),
            decreases bytes@.len() - i,
        {
            self.push_byte(bytes[i]);
            proof {
                assert(bytes@.take(i as int + 1) =~= bytes@.take(i as int).push(bytes@[i as int]));
                assert(old(self).bytes() + bytes@.take(i as int + 1) =~= (old(self).bytes()
                    + bytes@.take(i as int)).push(bytes@[i as int]));
            }
            i += 1;
        }
        proof {
            assert(bytes@.take(i as int) =~= bytes@);
        }
    }

    /// Runs the check `f` for `ax` and serializes its frame.
    ///
    /// A failing check serializes `result = 0` and returns
    /// `InvariantViolation` naming the axiom.
    pub fn check<F: FnOnce() -> bool>(&mut self, ax: AxiomID, f: F) -> (r: Result<(), GenesisError>)
        requires
            f.requires(()),
        ensures
            exists|ok: bool|
                {
                    &&& #[trigger] f.ensures((), ok)
                    &&& final(self).bytes() == old(self).bytes() + check_frame(ax.spec_id(), ok)
                    &&& ok ==> r is Ok && final(self).checked().0 == old(self).checked().0
                        | axiom_mask(ax.spec_id())
                    &&& !ok ==> r == Err::<(), GenesisError>(
                        GenesisError::InvariantViolation { axiom_id: ax.spec_id() },
                    ) && final(self).checked() == old(self).checked()
                },
            old(self).is_clean() && r is Ok ==> final(self).is_clean(),
    {
        let ok = f();
        let id = ax.id();
        self.push_byte(id);
        self.push_byte(if ok { 1u8 } else { 0u8 });
        self.extend_bytes(&[0u8, 0u8]);
        proof {
            assert(self.bytes() =~= old(self).bytes() + check_frame(id, ok));
        }
        if !ok {
            return Err(GenesisError::InvariantViolation { axiom_id: id });
        }
        proof {
            if old(self).is_clean() {
                assert(check_frame(id, ok) =~= passing_frame(id));
                lemma_replay_append_passing(old(self).bytes(), id);
            }
        }
        self.axioms.insert(ax);
        Ok(())
    }

    /// Finishes the builder and returns a [`Proof`] with the given timestamp.
    pub fn build(self, timestamp: u64) -> (p: Proof)
        ensures
            witness_bytes(p.witness) == self.bytes(),
            p.axioms_checked == self.checked(),
            p.hash@ == blake3_digest(self.bytes()),
            p.timestamp == timestamp,
            p.parent_proof_hash is None,
            p.premises.items().len() == 0,
            p.meta is None,
    {
        let axioms = self.axioms;
        let witness = match self.frames {
            WitnessBuffer::Small(frames) => Witness::from_slice(frames_as_slice(&frames)),
            WitnessBuffer::Large(v) => Witness::from_vec(v),
        };
        Proof::new(axioms, witness, timestamp)
    }
}

impl Default for WitnessBuilder {
    fn default() -> (b: WitnessBuilder)
        ensures
            b.bytes() == Seq::<u8>::empty(),
            b.checked().0 == 0,
    {
        WitnessBuilder::new()
    }
}

/// Laws of the builder: a builder whose checks all passed yields a proof that
/// verifies against `required` exactly when every required axiom was checked.
pub proof fn lemma_built_proof_verifies(b: WitnessBuilder, p: Proof, required: Seq<AxiomID>)
    requires
        b.is_clean(),
        witness_bytes(p.witness) == b.bytes(),
        p.axioms_checked == b.checked(),
        p.hash@ == blake3_digest(b.bytes()),
    ensures
        (spec_verify(p, required) is Ok) == (forall|a: AxiomID|
            required.contains(a) ==> #[trigger] mask_has(b.checked().0, a)),
{
    lemma_sound_proof_verification(p, required);
}

} // verus!
