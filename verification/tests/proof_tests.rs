use genesis::proof_carrying::{
    replay_witness, AxiomGuard, AxiomID, AxiomSet, Mutation, Premises, Proof, VerifiedProof,
    Witness, WitnessBuilder,
};
use genesis::GenesisError;

fn build_proof(checks: &[(AxiomID, bool)]) -> Result<Proof, GenesisError> {
    let mut builder = WitnessBuilder::new();
    for &(ax, result) in checks {
        builder.check(ax, move || result)?;
    }
    Ok(builder.build(0))
}

fn set_witness(proof: &mut Proof, bytes: &[u8]) {
    proof.witness = Witness::from_slice(bytes);
}

#[test]
fn valid_proof_passes() {
    let proof = build_proof(&[(AxiomID::MinkowskiSignature, true)]).unwrap();
    assert!(AxiomGuard::verify(&proof, &[AxiomID::MinkowskiSignature]));
}

#[test]
fn verify_for_result_returns_token_for_valid_proof() {
    struct DummyMutation;

    impl Mutation for DummyMutation {
        fn propose(&self) -> Result<Proof, GenesisError> {
            build_proof(&[(AxiomID::MinkowskiSignature, true)])
        }

        fn apply(&self, _token: VerifiedProof<'_, Self>) -> Result<(), GenesisError>
        where
            Self: Sized,
        {
            Ok(())
        }

        fn name(&self) -> &'static str {
            "dummy"
        }
    }

    let mutation = DummyMutation;
    let proof = mutation.propose().unwrap();
    let token = AxiomGuard::verify_for_result::<DummyMutation>(&proof, &[AxiomID::MinkowskiSignature])
        .ok()
        .expect("proof should verify");
    assert!(mutation.apply(token).is_ok());
    assert_eq!(mutation.name(), "dummy");
}

#[test]
fn verify_for_result_returns_proof_invalid_for_missing_axiom() {
    struct MissingMutation;

    impl Mutation for MissingMutation {
        fn propose(&self) -> Result<Proof, GenesisError> {
            build_proof(&[(AxiomID::MinkowskiSignature, true)])
        }

        fn apply(&self, _token: VerifiedProof<'_, Self>) -> Result<(), GenesisError>
        where
            Self: Sized,
        {
            Ok(())
        }

        fn name(&self) -> &'static str {
            "missing"
        }
    }

    let proof = build_proof(&[(AxiomID::MinkowskiSignature, true)]).unwrap();
    let Err(err) = AxiomGuard::verify_for_result::<MissingMutation>(&proof, &[AxiomID::CohomologyZero])
    else {
        panic!("missing required check must fail")
    };
    assert_eq!(err, GenesisError::ProofInvalid { axiom_id: 1 });
}

#[test]
fn tampered_witness_fails() {
    let mut proof = build_proof(&[(AxiomID::MinkowskiSignature, true)]).unwrap();
    let mut bytes = proof.witness.as_slice().to_vec();
    bytes[0] ^= 0xFF;
    set_witness(&mut proof, &bytes);
    assert!(!AxiomGuard::verify(&proof, &[AxiomID::MinkowskiSignature]));
}

#[test]
fn tampered_hash_fails() {
    let mut proof = build_proof(&[(AxiomID::MinkowskiSignature, true)]).unwrap();
    proof.hash[0] ^= 0xFF;
    assert!(!AxiomGuard::verify(&proof, &[AxiomID::MinkowskiSignature]));
}

#[test]
fn missing_axiom_in_required_fails() {
    let proof = build_proof(&[(AxiomID::MinkowskiSignature, true)]).unwrap();
    assert!(!AxiomGuard::verify(&proof, &[AxiomID::CohomologyZero]));
}

#[test]
fn failed_check_returns_invariant_violation_error() {
    let result = build_proof(&[(AxiomID::MinkowskiSignature, false)]);
    match result {
        Err(GenesisError::InvariantViolation { axiom_id }) => {
            assert_eq!(axiom_id, AxiomID::MinkowskiSignature.id());
        }
        other => panic!("Expected InvariantViolation, got {:?}", other.map(|p| p.timestamp)),
    }
}

#[test]
fn proof_from_future_is_not_fresh() {
    let mut future_proof = build_proof(&[(AxiomID::PlanckConstant, true)]).unwrap();
    future_proof.timestamp = 100;
    assert!(!future_proof.is_fresh_within(50, u64::MAX), "a proof from the future is not fresh");
    assert!(!future_proof.is_fresh_within(0, u64::MAX), "a proof from the future is not fresh at t=0");
}

#[test]
fn proof_freshness_window_is_half_open() {
    let proof = build_proof(&[(AxiomID::PlanckConstant, true)]).unwrap();
    assert!(proof.is_fresh_within(999, 1_000));
    assert!(!proof.is_fresh_within(1_000, 1_000));
}

#[test]
fn structural_required_does_not_contain_duality_or_admission() {
    let structural = AxiomSet::from_slice(&AxiomID::structural_required());
    assert!(!structural.contains(AxiomID::DualityConsistency));
    assert!(!structural.contains(AxiomID::DimensionalAdmission));
}

#[test]
fn expansion_required_contains_duality_and_admission() {
    let expansion = AxiomSet::from_slice(&AxiomID::expansion_required());
    assert!(expansion.contains(AxiomID::DualityConsistency));
    assert!(expansion.contains(AxiomID::DimensionalAdmission));
}

#[test]
fn expansion_required_is_superset_of_structural_required() {
    let structural = AxiomSet::from_slice(&AxiomID::structural_required());
    let expansion = AxiomSet::from_slice(&AxiomID::expansion_required());
    assert!(expansion.is_superset_of(structural));
}

#[test]
fn axiom_set_algebra_subset_superset_equality() {
    let structural = AxiomSet::from_slice(&AxiomID::structural_required());
    let expansion = AxiomSet::from_slice(&AxiomID::expansion_required());
    let structural_clone = AxiomSet::from_slice(&AxiomID::structural_required());

    assert!(structural.is_subset_of(expansion));
    assert!(expansion.is_superset_of(structural));
    assert_eq!(structural, structural_clone);
}

#[test]
fn axiom_set_const_ops_compile_time() {
    let structural = AxiomSet::from_axiom(AxiomID::MinkowskiSignature)
        .union(AxiomSet::from_axiom(AxiomID::CohomologyZero))
        .union(AxiomSet::from_axiom(AxiomID::AlgebraicConnectivity))
        .union(AxiomSet::from_axiom(AxiomID::PlanckConstant))
        .union(AxiomSet::from_axiom(AxiomID::ProofGuard));
    let expansion = structural
        .union(AxiomSet::from_axiom(AxiomID::DualityConsistency))
        .union(AxiomSet::from_axiom(AxiomID::DimensionalAdmission));
    let only_expansion = expansion.difference(structural);
    let both = structural.union(expansion);
    assert_eq!(both.bits(), expansion.bits());
    assert_eq!(only_expansion.bits(), 0b0110_0000);
    assert!(structural.intersects(expansion));
}

#[test]
fn axiom_set_const_difference_masks_invalid_bits() {
    let raw = AxiomSet(0b1111_1111);
    let remove_high_bit = AxiomSet(0b1000_0000);
    let diff = raw.difference(remove_high_bit);

    assert_eq!(diff.bits(), 0b0111_1111);
    assert!(diff.is_valid());
}

#[test]
fn axiom_set_insert_and_empty() {
    let mut s = AxiomSet::empty();
    assert_eq!(s.bits(), 0);
    s.insert(AxiomID::PlanckConstant);
    assert_eq!(s.bits(), 0b0000_1000);
    assert!(s.contains(AxiomID::PlanckConstant));
    assert!(!s.intersects(AxiomSet::from_axiom(AxiomID::ProofGuard)));
    assert!(!AxiomSet(0b1000_0000).is_valid());
}

#[test]
fn duality_consistency_fails_if_check_returns_false() {
    let mut builder = WitnessBuilder::new();
    let result = builder.check(AxiomID::DualityConsistency, || false);
    assert!(
        matches!(result, Err(GenesisError::InvariantViolation { axiom_id: 5 })),
        "Expected InvariantViolation {{ axiom_id: 5 }}, got {:?}",
        result
    );
}

#[test]
fn multi_axiom_proof_all_required_present() {
    let proof = build_proof(&[
        (AxiomID::MinkowskiSignature, true),
        (AxiomID::CohomologyZero, true),
        (AxiomID::AlgebraicConnectivity, true),
        (AxiomID::PlanckConstant, true),
        (AxiomID::ProofGuard, true),
    ])
    .unwrap();
    assert!(AxiomGuard::verify(&proof, &AxiomID::structural_required()));
}

#[test]
fn expansion_proof_all_required_present() {
    let proof = build_proof(&[
        (AxiomID::MinkowskiSignature, true),
        (AxiomID::CohomologyZero, true),
        (AxiomID::AlgebraicConnectivity, true),
        (AxiomID::PlanckConstant, true),
        (AxiomID::ProofGuard, true),
        (AxiomID::DualityConsistency, true),
        (AxiomID::DimensionalAdmission, true),
    ])
    .unwrap();
    assert!(AxiomGuard::verify(&proof, &AxiomID::expansion_required()));
}

#[test]
fn witness_frame_layout_is_4_bytes_per_check() {
    let proof = build_proof(&[
        (AxiomID::MinkowskiSignature, true),
        (AxiomID::CohomologyZero, true),
    ])
    .unwrap();
    assert_eq!(proof.witness.as_slice().len(), 8);
}

#[test]
fn witness_encodes_axiom_id_correctly() {
    let proof = build_proof(&[(AxiomID::AlgebraicConnectivity, true)]).unwrap();
    assert_eq!(proof.witness.as_slice()[0], 2u8);
    assert_eq!(proof.witness.as_slice()[1], 1u8);
}

#[test]
fn witness_builder_default_is_empty() {
    let builder = WitnessBuilder::default();
    let proof = builder.build(0);
    assert_eq!(proof.axioms_checked, AxiomSet::empty());
    assert!(proof.witness.as_slice().is_empty());
}

#[test]
fn witness_builder_spills_past_inline_capacity() {
    let mut builder = WitnessBuilder::new();
    for _ in 0..129 {
        builder.check(AxiomID::MinkowskiSignature, || true).unwrap();
    }
    let proof = builder.build(3);
    assert_eq!(proof.witness.as_slice().len(), 129 * 4);
    assert!(AxiomGuard::verify(&proof, &[AxiomID::MinkowskiSignature]));
}

#[test]
fn malformed_axiom_id_in_witness_is_rejected() {
    let mut proof = build_proof(&[(AxiomID::MinkowskiSignature, true)]).unwrap();
    let mut bytes = proof.witness.as_slice().to_vec();
    bytes[0] = 9;
    set_witness(&mut proof, &bytes);
    proof.hash = *blake3::hash(&bytes).as_bytes();
    assert!(!AxiomGuard::verify(&proof, &[AxiomID::MinkowskiSignature]));
}

#[test]
fn malformed_claimed_axiom_mask_is_rejected() {
    let mut proof = build_proof(&[(AxiomID::MinkowskiSignature, true)]).unwrap();
    proof.axioms_checked = AxiomSet(0b1000_0000);
    assert!(!AxiomGuard::verify(&proof, &[AxiomID::MinkowskiSignature]));
}

#[test]
fn blake3_hash_differs_from_reference_digest_for_test_vector() {
    fn reference_sha_256_baseline(data: &[u8]) -> [u8; 32] {
        assert_eq!(data, b"test");
        [
            0x9f, 0x86, 0xd0, 0x81, 0x88, 0x4c, 0x7d, 0x65, 0x9a, 0x2f, 0xea, 0xa0, 0xc5, 0x5a, 0xd0,
            0x15, 0xa3, 0xbf, 0x4f, 0x1b, 0x2b, 0x0b, 0x82, 0x2c, 0xd1, 0x5d, 0x6c, 0x15, 0xb0, 0xf0,
            0x0a, 0x08,
        ]
    }

    let digest = *blake3::hash(b"test").as_bytes();
    assert_eq!(digest.len(), 32);
    assert_ne!(digest, reference_sha_256_baseline(b"test"));
}

#[test]
fn proof_new_hashes_its_witness() {
    let w = Witness::from_slice(&[0u8, 1, 0, 0]);
    let proof = Proof::new(AxiomSet::from_axiom(AxiomID::MinkowskiSignature), w, 7);
    assert_eq!(proof.hash, *blake3::hash(&[0u8, 1, 0, 0]).as_bytes());
    assert!(proof.is_internally_consistent());
    assert!(AxiomGuard::verify(&proof, &[AxiomID::MinkowskiSignature]));
}

#[test]
fn replay_accepts_claims_covered_by_the_witness() {
    let frames = [0u8, 1, 0, 0, 3, 1, 2, 0, 0xAA, 0xBB];
    let claimed = AxiomSet::from_axiom(AxiomID::MinkowskiSignature)
        .union(AxiomSet::from_axiom(AxiomID::PlanckConstant));
    assert!(replay_witness(&frames, claimed));
    assert!(replay_witness(&frames, AxiomSet::from_axiom(AxiomID::MinkowskiSignature)));
    assert!(!replay_witness(&frames, claimed.union(AxiomSet::from_axiom(AxiomID::CohomologyZero))));
    assert!(!replay_witness(&frames[..9], claimed));
    assert!(!replay_witness(&[0u8, 0, 0, 0], AxiomSet::from_axiom(AxiomID::MinkowskiSignature)));
}

#[test]
fn causal_links_are_recorded() {
    let a = build_proof(&[(AxiomID::MinkowskiSignature, true)]).unwrap();
    let mut premises = Premises::new();
    for i in 0..6u8 {
        premises.push([i; 32]);
    }
    assert_eq!(premises.len(), 6);
    let b = build_proof(&[(AxiomID::CohomologyZero, true)])
        .unwrap()
        .with_causal_links(Some(a.hash), premises);
    assert_eq!(b.parent_proof_hash, Some(a.hash));
    assert_eq!(b.premises.as_slice()[5], [5u8; 32]);
}
