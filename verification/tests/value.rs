use phoenix::curve::{CompressedPoint, Scalar};
use phoenix::keys::PublicKey;
use phoenix::note::PhoenixIdx;
use phoenix::value::PhoenixValue;

#[test]
fn value_commitment_opens_to_its_value() {
    let pv = PhoenixValue::new(PhoenixIdx::default(), 7);
    assert_eq!(pv.commitments().len(), 1);
    assert_eq!(pv.blinding_factors().len(), 1);
    let proof = pv.prove(7).unwrap();
    pv.verify(&proof).unwrap();

    let verifier = PhoenixValue::with_commitments(pv.commitments().clone());
    assert!(verifier.blinding_factors().is_empty());
    verifier.verify(&proof).unwrap();
}

#[test]
fn value_commitment_does_not_open_to_another_value() {
    let pv = PhoenixValue::new(PhoenixIdx::default(), 7);
    let proof = pv.prove(8).unwrap();
    assert!(pv.verify(&proof).is_err());
}

#[test]
fn same_value_and_blinding_give_the_same_commitment() {
    let b = Scalar([5u8; 32]);
    let c = Scalar([6u8; 32]);
    let one = PhoenixValue::with_blinding_factors(PhoenixIdx::default(), 10, vec![b, c]);
    let two = PhoenixValue::with_blinding_factors(PhoenixIdx::default(), 10, vec![b]);
    let three = PhoenixValue::with_blinding_factors(PhoenixIdx::default(), 11, vec![b]);
    assert_eq!(one.commitments().len(), 2);
    assert_eq!(one.commitments()[0], two.commitments()[0]);
    assert_ne!(one.commitments()[0], one.commitments()[1]);
    assert_ne!(two.commitments()[0], three.commitments()[0]);
}

#[test]
fn commitments_and_blinding_factors_are_kept() {
    let p = CompressedPoint([1u8; 32]);
    let s = Scalar([2u8; 32]);
    let pv = PhoenixValue::with_commitments_and_blinding_factors(vec![p], vec![s]);
    assert_eq!(pv.commitments(), &vec![p]);
    assert_eq!(pv.blinding_factors(), &vec![s]);
}

#[test]
fn key_points_must_decompress() {
    assert!(PublicKey::from_points(CompressedPoint([0xffu8; 32]), CompressedPoint([0u8; 32])).is_none());
    assert!(PublicKey::from_points(CompressedPoint([0u8; 32]), CompressedPoint([0u8; 32])).is_some());
}
