use genesis::multivector_types::DerivedMetadata;

#[test]
fn set_active_unchecked_sets_bit_when_precondition_holds() {
    let mut md = DerivedMetadata::new(0, 0.0f64.to_bits(), 0.0f64.to_bits());
    md.set_active_unchecked(7);
    assert!(md.is_active(7));
}

#[test]
fn set_active_ignores_out_of_range_blade() {
    let mut md = DerivedMetadata::new(0, 0.0f64.to_bits(), 0.0f64.to_bits());
    md.set_active(40);
    assert_eq!(md.active_mask, 0);
}

#[test]
fn is_active_returns_false_for_out_of_range_blade() {
    let md = DerivedMetadata::new(1, 0.0f64.to_bits(), 0.0f64.to_bits());
    assert!(!md.is_active(40));
}

#[test]
fn set_active_keeps_other_blades() {
    let mut md = DerivedMetadata::new(0b1001, 1, 2);
    md.set_active(31);
    assert_eq!(md.active_mask, 0x8000_0009);
    assert!(md.is_active(0) && md.is_active(3) && md.is_active(31));
    assert!(!md.is_active(1));
    assert_eq!((md.max_abs_coeff_bits, md.clifford_norm_sq_bits), (1, 2));
}
