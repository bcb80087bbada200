use genesis::meta_consistency::ConflictRule;
use genesis::proof_carrying::{
    AxiomGuard, AxiomID, MetaConsistencyError, MetaConsistencyValidator, NodeDomainStateConflictRule, Premises,
    Proof, ProofMeta, WitnessBuilder,
};
use genesis::signal::NodeId;

fn proof_with(axioms: &[AxiomID], timestamp: u64) -> Proof {
    let mut b = WitnessBuilder::new();
    for &ax in axioms {
        b.check(ax, || true).expect("axiom check should pass");
    }
    b.build(timestamp)
}

fn meta(node: u64, domain: u8, state: u8) -> ProofMeta {
    ProofMeta {
        origin_node: NodeId::try_new(node).expect("valid node"),
        target_domain_hash: [domain; 32],
        resulting_state_hash: [state; 32],
    }
}

#[test]
fn meta_consistency_detects_conflict_between_two_valid_proofs() {
    let mut a = WitnessBuilder::new();
    a.check(AxiomID::MinkowskiSignature, || true).expect("axiom check should pass");
    let proof_a = a
        .build(100)
        .with_meta(ProofMeta {
            origin_node: NodeId::try_new(7).expect("valid node"),
            target_domain_hash: [1u8; 32],
            resulting_state_hash: [9u8; 32],
        })
        .with_causal_links(None, Premises::new());

    let mut premises_b = Premises::new();
    premises_b.push(proof_a.hash);

    let mut b = WitnessBuilder::new();
    b.check(AxiomID::MinkowskiSignature, || true).expect("axiom check should pass");
    b.check(AxiomID::CohomologyZero, || true).expect("axiom check should pass");
    let proof_b = b
        .build(101)
        .with_meta(ProofMeta {
            origin_node: NodeId::try_new(7).expect("valid node"),
            target_domain_hash: [1u8; 32],
            resulting_state_hash: [10u8; 32],
        })
        .with_causal_links(Some(proof_a.hash), premises_b);

    assert!(AxiomGuard::verify(&proof_a, &[AxiomID::MinkowskiSignature]));
    assert!(AxiomGuard::verify(&proof_b, &[AxiomID::MinkowskiSignature]));

    let validator = MetaConsistencyValidator::default();
    let err = AxiomGuard::verify_with_meta(&proof_b, &[AxiomID::MinkowskiSignature], &[&proof_a], &validator)
        .expect_err("proofs should conflict at meta layer");

    assert_eq!(
        err,
        MetaConsistencyError::Conflict {
            candidate: proof_b.hash,
            existing: proof_a.hash,
        }
    );
}

#[test]
fn consistent_history_is_accepted() {
    let a = proof_with(&[AxiomID::MinkowskiSignature], 1).with_meta(meta(1, 1, 1));
    let b = proof_with(&[AxiomID::CohomologyZero], 2)
        .with_meta(meta(1, 2, 2))
        .with_causal_links(Some(a.hash), Premises::new());
    let validator = MetaConsistencyValidator::new(NodeDomainStateConflictRule);
    assert_eq!(validator.validate_against_history(&b, &[&a]), Ok(()));
    assert_eq!(validator.validate_against_history(&a, &[]), Ok(()));
}

#[test]
fn mutual_links_are_a_causal_cycle() {
    let a0 = proof_with(&[AxiomID::MinkowskiSignature], 1);
    let b0 = proof_with(&[AxiomID::CohomologyZero], 2);
    let a = a0.with_causal_links(Some(b0.hash), Premises::new());
    let mut prem = Premises::new();
    prem.push(a.hash);
    let b = b0.with_causal_links(None, prem);
    let validator = MetaConsistencyValidator::default();
    assert_eq!(validator.validate_against_history(&b, &[&a]), Err(MetaConsistencyError::CausalCycle));
}

#[test]
fn self_link_is_a_causal_cycle() {
    let p0 = proof_with(&[AxiomID::PlanckConstant], 5);
    let h = p0.hash;
    let p = p0.with_causal_links(Some(h), Premises::new());
    let validator = MetaConsistencyValidator::default();
    assert_eq!(validator.validate_against_history(&p, &[]), Err(MetaConsistencyError::CausalCycle));
}

#[test]
fn dangling_links_are_ignored() {
    let mut prem = Premises::new();
    prem.push([0xEE; 32]);
    let p = proof_with(&[AxiomID::PlanckConstant], 5).with_causal_links(Some([0xDD; 32]), prem);
    let validator = MetaConsistencyValidator::default();
    assert_eq!(validator.validate_against_history(&p, &[]), Ok(()));
}

#[test]
fn first_conflicting_proof_is_reported() {
    let a = proof_with(&[AxiomID::MinkowskiSignature], 1).with_meta(meta(3, 1, 1));
    let b = proof_with(&[AxiomID::CohomologyZero], 2).with_meta(meta(3, 1, 2));
    let c = proof_with(&[AxiomID::PlanckConstant], 3).with_meta(meta(3, 1, 3));
    let validator = MetaConsistencyValidator::default();
    assert_eq!(
        validator.validate_against_history(&c, &[&a, &b]),
        Err(MetaConsistencyError::Conflict { candidate: c.hash, existing: a.hash })
    );
    // Same state again is no conflict; proofs without metadata never conflict.
    let same = proof_with(&[AxiomID::ProofGuard], 4).with_meta(meta(3, 1, 1));
    assert!(!NodeDomainStateConflictRule.conflicts(&same, &a));
    let bare = proof_with(&[AxiomID::ProofGuard], 4);
    assert!(!NodeDomainStateConflictRule.conflicts(&bare, &a));
}

#[test]
fn base_failure_is_reported_before_history() {
    let p = proof_with(&[AxiomID::MinkowskiSignature], 1);
    let validator = MetaConsistencyValidator::default();
    let err = AxiomGuard::verify_with_meta(&p, &[AxiomID::CohomologyZero], &[], &validator).unwrap_err();
    assert!(matches!(err, MetaConsistencyError::Base(_)));
}
