use genesis::error::{
    domain_code, signature_value_hint, signature_violation_reason, ErrorPayloadTier, SignatureViolationCode,
};
use genesis::GenesisError;

#[test]
fn global_clock_is_invariant_violation() {
    assert!(GenesisError::GlobalClockForbidden.is_invariant_violation());
}

#[test]
fn delaunay_is_invariant_violation() {
    assert!(GenesisError::DelaunayForbidden.is_invariant_violation());
}

#[test]
fn cohomology_non_trivial_is_topological_rejection() {
    assert!(GenesisError::CohomologyNonTrivial.is_topological_rejection());
}

#[test]
fn firewall_blocked_is_topological_rejection() {
    assert!(GenesisError::FirewallBlocked.is_topological_rejection());
}

#[test]
fn signature_violation_is_not_topological_rejection() {
    let err = GenesisError::SignatureViolation {
        code: SignatureViolationCode::FromDenseInput,
        blade_index: 0,
        normalized_value: None,
    };
    assert!(!err.is_topological_rejection());
}

#[test]
fn error_clone_equals_original() {
    let err = GenesisError::BladeIndexOutOfRange { index: 7 };
    assert_eq!(err, err.clone());
}

#[test]
fn distinct_errors_not_equal() {
    let a = GenesisError::GlobalClockForbidden;
    let b = GenesisError::FirewallBlocked;
    assert_ne!(a, b);
}

#[test]
fn classification_is_mutually_exclusive() {
    let inv = GenesisError::GlobalClockForbidden;
    let topo = GenesisError::CohomologyNonTrivial;
    let sig = GenesisError::DomainMismatch {
        reset: domain_code("a"),
        signal: domain_code("b"),
    };

    assert!(inv.is_invariant_violation());
    assert!(!inv.is_topological_rejection());

    assert!(topo.is_topological_rejection());
    assert!(!topo.is_invariant_violation());

    assert!(!sig.is_invariant_violation());
    assert!(!sig.is_topological_rejection());
}

#[test]
fn error_classification_is_mutually_exclusive_for_key_errors() {
    let inv = GenesisError::GlobalClockForbidden;
    let topo = GenesisError::CohomologyNonTrivial;

    assert!(inv.is_invariant_violation());
    assert!(!inv.is_topological_rejection());

    assert!(topo.is_topological_rejection());
    assert!(!topo.is_invariant_violation());
}

#[test]
fn payload_tiers_split_invariant_and_operational_errors() {
    assert_eq!(
        GenesisError::GlobalClockForbidden.payload_tier(),
        ErrorPayloadTier::Tier1Invariant
    );
    assert_eq!(
        GenesisError::DomainSatiated {
            domain: "physics::electromagnetism",
        }
        .payload_tier(),
        ErrorPayloadTier::Tier1Invariant
    );
}

#[test]
fn invalid_input_is_operational_tier() {
    assert_eq!(
        GenesisError::InvalidInput("bad").payload_tier(),
        ErrorPayloadTier::Tier2Operational
    );
    assert!(!GenesisError::InvalidInput("bad").is_invariant_violation());
}

#[test]
fn domain_code_is_fnv1a_32() {
    // FNV-1a of the empty string is the offset basis.
    assert_eq!(domain_code(""), 0x811c_9dc5);
    // FNV-1a("a") = 0xe40c292c.
    assert_eq!(domain_code("a"), 0xe40c_292c);
    assert_ne!(domain_code("math::clifford"), domain_code("physics::em"));
}

#[test]
fn proof_invalid_is_invariant_violation() {
    assert!(GenesisError::ProofInvalid { axiom_id: 3 }.is_invariant_violation());
    assert!(GenesisError::InvariantViolation { axiom_id: 4 }.is_invariant_violation());
    assert!(!GenesisError::NodeIdOutOfRange { raw: 1 }.is_topological_rejection());
}

#[test]
fn signature_violation_phrases_name_the_cause() {
    assert_eq!(
        signature_violation_reason(SignatureViolationCode::HotPathNonFiniteMetadata),
        "hot-path strict validation failed: non-finite max_abs_coeff metadata"
    );
    assert_eq!(
        signature_violation_reason(SignatureViolationCode::FromSparseInput),
        "non-finite coefficient while constructing from sparse input"
    );
    assert_eq!(signature_value_hint(Some(0)), "value=nan");
    assert_eq!(signature_value_hint(Some(2)), "value=-inf");
    assert_eq!(signature_value_hint(Some(7)), "value=unknown");
    assert_eq!(signature_value_hint(None), "value=unknown");
}
