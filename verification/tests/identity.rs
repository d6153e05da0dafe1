use poseidon_crh::field::FieldElement;
use poseidon_crh::identity::CRH;
use poseidon_crh::CryptoError;

#[test]
fn mod_should_return_same_data() {
    let val = FieldElement::from_u64(4);
    let bytes = val.to_le_bytes();
    let res = CRH::evaluate(&(), &bytes).unwrap();
    assert_eq!(res, val);
}

#[test]
fn identity_setup_succeeds() {
    assert!(CRH::setup().is_ok());
}

#[test]
fn identity_round_trip_reencodes() {
    let v = FieldElement::from_u64(123456789);
    let bytes = v.to_le_bytes();
    let res = CRH::evaluate(&(), &bytes).unwrap();
    assert_eq!(res, v);
    assert_eq!(res.to_le_bytes(), bytes);
}

#[test]
fn identity_rejects_short_input() {
    let res = CRH::evaluate(&(), &[7u8, 1u8]);
    assert_eq!(res, Err(CryptoError::IncorrectInputLength(0)));
}

#[test]
fn identity_rejects_two_elements() {
    let mut bytes = FieldElement::from_u64(1).to_le_bytes();
    bytes.extend(FieldElement::from_u64(2).to_le_bytes());
    let res = CRH::evaluate(&(), &bytes);
    assert_eq!(res, Err(CryptoError::IncorrectInputLength(2)));
}

#[test]
fn identity_rejects_empty_input() {
    let res = CRH::evaluate(&(), &[]);
    assert_eq!(res, Err(CryptoError::IncorrectInputLength(0)));
}

#[test]
fn identity_rejects_non_canonical_chunk() {
    let bytes = vec![0xffu8; 32];
    assert_eq!(CRH::evaluate(&(), &bytes), Err(CryptoError::NotPrimeOrder));
}
