use std::collections::HashSet;

use genesis::constants::{fisher_satiation_window, sinkhorn_max_iter, NonZeroCount};
use genesis::error::domain_code;
use genesis::signal::{
    BladeIndex, Certified, DomainConsolidationSignal, DomainResetSignal, NodeId, Saturated,
    SpikeComponentsError, Timestamp, NODE_ID_MAX_VALID, SPIKE_EVENT_LAYOUT_VERSION,
};
use genesis::GenesisError;

#[test]
fn spike_event_layout_version_is_2() {
    assert_eq!(SPIKE_EVENT_LAYOUT_VERSION, 2);
}

#[test]
fn blade_index_try_from_rejects_out_of_range() {
    let err = BladeIndex::<4>::try_from(16u16).expect_err("index 16 is invalid for D=4");
    assert_eq!(
        err,
        SpikeComponentsError::InvalidBladeIndex {
            index: 16,
            dimension: 4,
            upper_bound: 16,
        }
    );
}

#[test]
fn blade_index_rejects_unsupported_dimension() {
    let err = BladeIndex::<32>::try_from(0u16).expect_err("D=32 is unsupported");
    assert_eq!(err, SpikeComponentsError::DimensionUnsupported { dimension: 32 });
}

#[test]
fn node_id_get_round_trips() {
    let id = NodeId::try_new(42).expect("42 is inside the valid NodeId range");
    assert_eq!(id.get(), 42);
}

#[test]
fn node_id_try_new_rejects_upper_bound() {
    let err = NodeId::try_new(u64::MAX).expect_err("u64::MAX must be rejected");
    assert_eq!(err, GenesisError::NodeIdOutOfRange { raw: u64::MAX });
}

#[test]
fn node_id_try_new_accepts_999999() {
    let id = NodeId::try_new(999_999).expect("999_999 must be accepted");
    assert_eq!(id.get(), 999_999);
}

#[test]
fn timestamp_nanoseconds_round_trips() {
    let ts = Timestamp::new(1_000_000);
    assert_eq!(ts.nanoseconds(), 1_000_000);
}

#[test]
fn node_id_invalid_sentinel() {
    assert_eq!(NodeId::invalid().get(), u64::MAX);
}

#[test]
fn timestamp_zero_sentinel() {
    assert_eq!(Timestamp::zero().nanoseconds(), 0);
}

#[test]
fn node_id_max_valid_is_accepted() {
    let id = NodeId::try_new(NODE_ID_MAX_VALID).expect("the largest valid id");
    assert_eq!(id.get(), NODE_ID_MAX_VALID);
    assert_eq!(NodeId::MAX_VALID, NODE_ID_MAX_VALID);
}

#[test]
fn timestamp_age_saturates_at_zero() {
    let ts = Timestamp::new(100);
    assert_eq!(ts.saturating_age_ns(150), 50);
    assert_eq!(ts.saturating_age_ns(40), 0);
}

#[test]
fn blade_index_accepts_last_valid_index() {
    assert_eq!(BladeIndex::<4>::upper_bound(), 16);
    let b = BladeIndex::<4>::new(15).expect("15 < 2^4");
    assert_eq!(b.get(), 15);
    assert_eq!(BladeIndex::<31>::upper_bound(), 1u32 << 31);
    assert_eq!(BladeIndex::<40>::upper_bound(), 0);
}

#[test]
fn saturated_signal_fields_correct() {
    let sig = DomainConsolidationSignal::<Saturated>::saturated(
        "physics::em",
        Timestamp::new(999),
        1e-7f64.to_bits(),
    );
    assert_eq!(sig.domain, "physics::em");
    assert_eq!(sig.timestamp_ns, Timestamp::new(999));
    assert!((f64::from_bits(sig.fisher_delta_g_bits) - 1e-7).abs() < 1e-20);
}

#[test]
fn certified_signal_fields_correct() {
    let sig = DomainConsolidationSignal::<Certified>::certified("math::topology", Timestamp::new(42));
    assert_eq!(sig.domain, "math::topology");
    assert_eq!(sig.timestamp_ns, Timestamp::new(42));
    assert_eq!(sig.fisher_delta_g_bits, 0f64.to_bits());
}

#[test]
fn saturated_can_certify() {
    let sat =
        DomainConsolidationSignal::<Saturated>::saturated("d", Timestamp::new(0), 1e-8f64.to_bits());
    let cert = sat.certify();
    assert_eq!(cert.domain, "d");
    assert_eq!(cert.fisher_delta_g_bits, 0);
}

#[test]
fn equal_saturated_signals_hash_identically() {
    let a = DomainConsolidationSignal::<Saturated>::saturated(
        "physics::em",
        Timestamp::new(999),
        1e-7f64.to_bits(),
    );
    let b = DomainConsolidationSignal::<Saturated>::saturated(
        "physics::em",
        Timestamp::new(999),
        1e-7f64.to_bits(),
    );
    assert_eq!(a, b);
    let mut set = HashSet::new();
    set.insert(a);
    assert!(!set.insert(b), "Equal signals must map to same bucket");
}

#[test]
fn nan_bit_pattern_equality_deterministic_saturated() {
    let nan_bits = f64::NAN.to_bits();
    let a = DomainConsolidationSignal::<Saturated>::saturated("d", Timestamp::new(0), nan_bits);
    let b = DomainConsolidationSignal::<Saturated>::saturated("d", Timestamp::new(0), nan_bits);
    assert_eq!(a, b, "Same NaN bit-pattern must compare equal");
}

#[test]
fn domain_reset_validate_against_saturated_succeeds_for_matching_domain() {
    let saturated =
        DomainConsolidationSignal::<Saturated>::saturated("math::clifford", Timestamp::new(0), 0);
    let reset = DomainResetSignal {
        domain: "math::clifford",
        timestamp_ns: Timestamp::new(1),
        justification: "New dataset approved by Principal Architect",
    };
    assert!(reset.validate_against(&saturated).is_ok());
}

#[test]
fn domain_reset_validate_against_saturated_fails_for_domain_mismatch() {
    let saturated =
        DomainConsolidationSignal::<Saturated>::saturated("physics::em", Timestamp::new(0), 0);
    let reset = DomainResetSignal {
        domain: "math::clifford",
        timestamp_ns: Timestamp::new(1),
        justification: "test",
    };
    let err = reset.validate_against(&saturated).unwrap_err();
    match &err {
        GenesisError::DomainMismatch { reset: r, signal: s } => {
            assert_eq!(*r, domain_code("math::clifford"));
            assert_eq!(*s, domain_code("physics::em"));
        }
        _ => panic!("Expected DomainMismatch, got {:?}", err),
    }
}

#[test]
fn domain_reset_validate_against_certified_is_compile_error() {
    // Passing a `DomainConsolidationSignal<Certified>` to `validate_against`
    // does not type-check: only saturated domains have a reset path.
}

#[test]
fn domain_reset_validate_certified_is_compile_error() {
    // Same guarantee, seen from the crate root: the certified state has no
    // `validate_against` entry point.
}

#[test]
fn domain_reset_validate_against_saturated_ok_from_crate_root() {
    let certified = DomainConsolidationSignal::<Saturated>::saturated(
        "math::topology",
        Timestamp::new(1),
        1e-8f64.to_bits(),
    );
    let reset = DomainResetSignal {
        domain: "math::topology",
        timestamp_ns: Timestamp::new(2),
        justification: "test",
    };
    assert!(reset.validate_against(&certified).is_ok());
}

#[test]
fn nonzero_usize_constants_accessible_via_get() {
    assert_eq!(fisher_satiation_window().get(), 50);
    assert_eq!(sinkhorn_max_iter().get(), 1_000);
}

#[test]
fn nonzero_count_rejects_zero() {
    assert!(NonZeroCount::new(0).is_none());
    assert_eq!(NonZeroCount::new(7).map(|c| c.get()), Some(7));
}
