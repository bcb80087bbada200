//! Error taxonomy shared by every layer of the cognitive core.
//!
//! Payloads that the producing layer measures as IEEE-754 doubles are carried
//! here as their raw bit patterns (`f64::to_bits`), so that this crate never
//! computes with floating point; boundary layers turn them back into `f64`.
use vstd::prelude::*;
use vstd::string::StringSliceAdditionalSpecFns;

use crate::signal::NodeId;

verus! {

/// Payload policy tier for [`GenesisError`] variants.
#[derive(Debug, Clone, Copy, PartialEq, Eq)]
pub enum ErrorPayloadTier {
    /// Tier 1: invariant/fatal path. Payload must be fixed-size and non-alloc.
    Tier1Invariant,
    /// Tier 2: operational path. Contextual allocation is permitted.
    Tier2Operational,
}

/// Compact source tag for algebra signature violations.
#[derive(Debug, Clone, Copy, PartialEq, Eq)]
pub enum SignatureViolationCode {
    /// Violation detected while constructing from sparse `(index, coeff)` input.
    FromSparseInput,
    /// Violation detected while constructing from a dense 16-coefficient buffer.
    FromDenseInput,
    /// Hot-path strict validation: non-finite `max_abs_coeff` metadata.
    HotPathNonFiniteMetadata,
    /// Hot-path strict validation: non-finite coefficient in input operands.
    HotPathNonFiniteInputCoeff,
    /// Cold-path strict finalization: non-finite coefficient in result buffer.
    ColdPathNonFiniteResultCoeff,
}

/// Compact source tag for free-energy terms that became non-finite.
#[derive(Debug, Clone, Copy, PartialEq, Eq)]
pub enum VfeTermCode {
    /// `D_KL(Q||P)` term became NaN/Inf.
    KullbackLeibler,
    /// `-ln P(o)` term became NaN/Inf.
    ObservationLogProb,
    /// Final aggregated free-energy scalar became NaN/Inf.
    AggregateFreeEnergy,
    /// Fallback when a specific term cannot be identified.
    Unknown,
}

/// Non-alloc domain fingerprint used in invariant/signal mismatch paths.
pub type DomainCode = u32;

/// FNV-1a 32-bit offset basis.
pub const FNV_OFFSET_BASIS: u32 = 0x811c9dc5u32;

/// FNV-1a 32-bit prime.
pub const FNV_PRIME: u32 = 0x01000193u32;

/// One FNV-1a round: xor the byte in, then multiply by the prime modulo 2^32.
pub open spec fn fnv1a_step(hash: u32, byte: u8) -> u32 {
    vstd::wrapping::u32_specs::wrapping_mul(hash ^ (byte as u32), FNV_PRIME)
}

/// FNV-1a 32-bit hash of a byte sequence.
pub open spec fn fnv1a(bytes: Seq<u8>) -> u32
    decreases bytes.len(),
{
    if bytes.len() == 0 {
        FNV_OFFSET_BASIS
    } else {
        fnv1a_step(fnv1a(bytes.drop_last()), bytes.last())
    }
}

/// Computes a stable compact domain identifier (FNV-1a 32-bit over the UTF-8 bytes).
pub fn domain_code(input: &str) -> (code: DomainCode)
    ensures
        code == fnv1a(input.spec_bytes()),
{
    let bytes = input.as_bytes();
    let mut hash = FNV_OFFSET_BASIS;
    let mut i: usize = 0;
    while i < bytes.len()
        invariant
            bytes@ == input.spec_bytes(),
            i <= bytes@.len(),
            hash == fnv1a(bytes@.take(i as int)),
        decreases bytes@.len() - i,
    {
        proof {
            assert(bytes@.take(i as int + 1).drop_last() =~= bytes@.take(i as int));
        }
        hash = hash ^ (bytes[i] as u32);
        hash = hash.wrapping_mul(FNV_PRIME);
        i += 1;
    }
    proof {
        assert(bytes@.take(i as int) =~= bytes@);
    }
    hash
}

/// Unified error type for the cognitive core.
///
/// Variants are organised by the layer that produces them. Floating-point
/// payloads are stored as their IEEE-754 bit patterns (`*_bits` fields).
#[derive(Debug, Clone, PartialEq)]
#[non_exhaustive]
#[allow(inconsistent_fields)]
pub enum GenesisError {
    /// A geometric product or transformation would violate the Minkowski signature (1,3).
    SignatureViolation {
        /// Compact violation classification.
        code: SignatureViolationCode,
        /// Blade index associated with the violation (`u16::MAX` = unknown).
        blade_index: u16,
        /// Normalized value tag: `Some(0)=NaN`, `Some(1)=+Inf`, `Some(2)=-Inf`.
        normalized_value: Option<u8>,
    },
    /// A basis index exceeds the maximum allowed for G(1,3) (valid: 0..=15).
    BladeIndexOutOfRange {
        /// The out-of-range blade index.
        index: usize,
    },
    /// Two operands have mismatched dimensionality.
    DimensionMismatch {
        /// `total_dim` of the left-hand operand.
        lhs: usize,
        /// `total_dim` of the right-hand operand.
        rhs: usize,
    },
    /// A candidate hypothesis has non-trivial first cohomology group H¹ ≠ 0.
    CohomologyNonTrivial,
    /// HNSW search found no neighbour within the bivector metric bound.
    HnswNoNeighbours {
        /// Bit pattern of the metric bound.
        metric_bound_bits: u64,
    },
    /// An insertion would require global Delaunay re-triangulation.
    DelaunayForbidden,
    /// Gram-Schmidt manifold expansion failed.
    BasisExpansionFailed {
        /// Bit pattern of the residual norm.
        residual_norm_bits: u64,
        /// Bit pattern of the orthogonality threshold.
        threshold_bits: u64,
    },
    /// The Kuramoto network attempted to step with zero oscillators.
    KuramotoNetworkEmpty,
    /// Duplicate oscillator insertion for an existing `NodeId`.
    KuramotoDuplicateNodeId {
        /// Raw node identifier that already exists in the network.
        raw: u64,
    },
    /// A Lindblad collapse was attempted below the synchrony threshold.
    PrematureCollapse {
        /// Bit pattern of the measured order parameter.
        order_bits: u64,
        /// Bit pattern of the required threshold.
        threshold_bits: u64,
    },
    /// Free energy computation produced a non-finite value.
    VfeNonFinite {
        /// Term that produced the non-finite value.
        term: VfeTermCode,
    },
    /// Sinkhorn transport did not converge.
    SinkhornNotConverged {
        /// Number of iterations executed before aborting.
        iterations: usize,
        /// Bit pattern of the L∞ residual at abort time.
        residual_bits: u64,
    },
    /// Domain satiation reached; ingestion blocked for the branch.
    DomainSatiated {
        /// Hierarchical domain identifier whose ingestion channel is locked.
        domain: &'static str,
    },
    /// A Ricci flow step would produce a degenerate metric.
    RicciMetricDegenerate {
        /// Bit pattern of the computed determinant.
        determinant_bits: u64,
    },
    /// The sensory projector broke the homeomorphism invariant.
    ProjectionHomeomorphismViolated {
        /// Bit pattern of the Wasserstein distance.
        distance_bits: u64,
        /// Bit pattern of the maximum acceptable distance.
        threshold_bits: u64,
    },
    /// The output firewall blocked manifestation (H¹ ≠ 0).
    FirewallBlocked,
    /// A functor failed to embed a multivector into an external action.
    FunctorEmbeddingFailed {
        /// Identifier of the external action.
        action: String,
        /// Diagnostic reason for the failure.
        reason: String,
    },
    /// A forbidden global clock was detected in the execution path.
    GlobalClockForbidden,
    /// An external loss function was injected into the learning path.
    ExternalLossForbidden {
        /// Static name of the forbidden loss function.
        loss_fn: &'static str,
    },
    /// An associative map was used in a hot path.
    HashMapInHotPath {
        /// Static source location of the forbidden usage.
        location: &'static str,
    },
    /// A reset targets a different domain than the consolidation signal.
    DomainMismatch {
        /// Compact domain identifier named in the reset.
        reset: DomainCode,
        /// Compact domain identifier named in the consolidation signal.
        signal: DomainCode,
    },
    /// A raw `NodeId` exceeded the supported range.
    NodeIdOutOfRange {
        /// Raw node identifier supplied by the caller.
        raw: u64,
    },
    /// Semantically invalid input for a fallible API.
    InvalidInput(&'static str),
    /// A `NodeId` exceeded the defensive maximum of a direct index.
    NodeIdTooLarge {
        /// Raw NodeId value that triggered the limit.
        raw: usize,
        /// The defensive maximum.
        max_allowed: usize,
    },
    /// A node was not found in the specified structure.
    NodeNotFound {
        /// The NodeId that was not found.
        id: NodeId,
    },
    /// An internal index overflowed `u32::MAX`.
    InternalIndexOverflow {
        /// The index that overflowed.
        index: usize,
    },
    /// A structural mutation ran without a valid proof.
    ProofMissing {
        /// Name of the offending mutation.
        mutation_name: &'static str,
    },
    /// A proof failed verification (hash or axiom).
    ProofInvalid {
        /// Axiom identifier that failed (`u8::MAX` = integrity failure).
        axiom_id: u8,
    },
    /// An axiom was checked before a mutation and found false.
    InvariantViolation {
        /// Axiom identifier that was violated.
        axiom_id: u8,
    },
}

impl GenesisError {
    /// Operational errors: the only variants that may carry allocated context.
    pub open spec fn spec_is_operational(&self) -> bool {
        self is FunctorEmbeddingFailed || self is InvalidInput
    }

    /// Architectural invariant violations.
    pub open spec fn spec_is_invariant_violation(&self) -> bool {
        ||| self is GlobalClockForbidden
        ||| self is ExternalLossForbidden
        ||| self is HashMapInHotPath
        ||| self is DelaunayForbidden
        ||| self is ProofMissing
        ||| self is ProofInvalid
        ||| self is InvariantViolation
    }

    /// Topological rejections.
    pub open spec fn spec_is_topological_rejection(&self) -> bool {
        self is CohomologyNonTrivial || self is FirewallBlocked
    }

    /// Classifies this error according to payload policy tiers.
    pub fn payload_tier(&self) -> (tier: ErrorPayloadTier)
        ensures
            tier == (if self.spec_is_operational() {
                ErrorPayloadTier::Tier2Operational
            } else {
                ErrorPayloadTier::Tier1Invariant
            }),
    {
        match self {
            GenesisError::FunctorEmbeddingFailed { .. } | GenesisError::InvalidInput(_) => {
                ErrorPayloadTier::Tier2Operational
            },
            _ => ErrorPayloadTier::Tier1Invariant,
        }
    }

    /// Returns `true` if this error is an architectural invariant violation.
    pub fn is_invariant_violation(&self) -> (b: bool)
        ensures
            b == self.spec_is_invariant_violation(),
    {
        match self {
            GenesisError::GlobalClockForbidden
            | GenesisError::ExternalLossForbidden { .. }
            | GenesisError::HashMapInHotPath { .. }
            | GenesisError::DelaunayForbidden
            | GenesisError::ProofMissing { .. }
            | GenesisError::ProofInvalid { .. }
            | GenesisError::InvariantViolation { .. } => true,
            _ => false,
        }
    }

    /// Returns `true` if this error is a topological rejection.
    pub fn is_topological_rejection(&self) -> (b: bool)
        ensures
            b == self.spec_is_topological_rejection(),
    {
        match self {
            GenesisError::CohomologyNonTrivial | GenesisError::FirewallBlocked => true,
            _ => false,
        }
    }
}

/// Reason phrase of a signature violation code, as the boundary diagnostic
/// prints it.
pub open spec fn reason_text(code: SignatureViolationCode) -> &'static str {
    match code {
        SignatureViolationCode::FromSparseInput => "non-finite coefficient while constructing from sparse input",
        SignatureViolationCode::FromDenseInput => "non-finite coefficient while constructing from dense input",
        SignatureViolationCode::HotPathNonFiniteMetadata =>
            "hot-path strict validation failed: non-finite max_abs_coeff metadata",
        SignatureViolationCode::HotPathNonFiniteInputCoeff =>
            "hot-path strict validation failed: non-finite input coefficient",
        SignatureViolationCode::ColdPathNonFiniteResultCoeff =>
            "cold-path strict finalization failed: non-finite result coefficient",
    }
}

/// Value phrase of a normalized value tag, as the boundary diagnostic prints it.
pub open spec fn value_hint_text(normalized_value: Option<u8>) -> &'static str {
    match normalized_value {
        Some(0u8) => "value=nan",
        Some(1u8) => "value=+inf",
        Some(2u8) => "value=-inf",
        _ => "value=unknown",
    }
}

/// Reason phrase of a signature violation code.
pub fn signature_violation_reason(code: SignatureViolationCode) -> (r: &'static str)
    ensures
        r == reason_text(code),
{
    match code {
        SignatureViolationCode::FromSparseInput => "non-finite coefficient while constructing from sparse input",
        SignatureViolationCode::FromDenseInput => "non-finite coefficient while constructing from dense input",
        SignatureViolationCode::HotPathNonFiniteMetadata =>
            "hot-path strict validation failed: non-finite max_abs_coeff metadata",
        SignatureViolationCode::HotPathNonFiniteInputCoeff =>
            "hot-path strict validation failed: non-finite input coefficient",
        SignatureViolationCode::ColdPathNonFiniteResultCoeff =>
            "cold-path strict finalization failed: non-finite result coefficient",
    }
}

/// Value phrase of a normalized value tag (`0` NaN, `1` +∞, `2` −∞).
pub fn signature_value_hint(normalized_value: Option<u8>) -> (r: &'static str)
    ensures
        r == value_hint_text(normalized_value),
{
    match normalized_value {
        Some(0u8) => "value=nan",
        Some(1u8) => "value=+inf",
        Some(2u8) => "value=-inf",
        _ => "value=unknown",
    }
}

/// The two classifications never overlap: no error is both an invariant
/// violation and a topological rejection.
pub proof fn lemma_classification_disjoint(e: GenesisError)
    ensures
        !(e.spec_is_invariant_violation() && e.spec_is_topological_rejection()),
{
}

} // verus!
