use monero_core::amount::Amount;
use monero_core::key::KeyPair;
use monero_core::key::Scalar;
use monero_core::ringct::check_signature_shape;
use monero_core::ringct::RctVariant;
use monero_core::ringct::key_image;
use monero_core::ringct::Commitment;
use monero_core::ringct::decrypt_amount;
use monero_core::ringct::encrypt_amount;
use monero_core::ringct::Error;

#[test]
fn commitment_homomorphism() {
    let b1 = Scalar::random();
    let b2 = Scalar::random();
    let c1 = Commitment::commit(Amount::from_atomic(10), &b1).unwrap();
    let c2 = Commitment::commit(Amount::from_atomic(20), &b2).unwrap();
    let sum = c1.add(&c2);
    let expected = Commitment::commit(Amount::from_atomic(30), &b1.add(&b2)).unwrap();
    assert_eq!(sum.to_bytes(), expected.to_bytes());
}

#[test]
fn commit_zero_blinding_matches_explicit_zero() {
    let zero = Scalar::from_u64(0);
    let a = Amount::from_atomic(12345);
    let c1 = Commitment::commit_zero_blinding(a).unwrap();
    let c2 = Commitment::commit(a, &zero).unwrap();
    assert_eq!(c1.to_bytes(), c2.to_bytes());
}

#[test]
fn commitments_hide_amounts_only_with_blinding() {
    let b = Scalar::random();
    let c1 = Commitment::commit(Amount::from_atomic(1), &b).unwrap();
    let c2 = Commitment::commit(Amount::from_atomic(2), &b).unwrap();
    assert_ne!(c1.to_bytes(), c2.to_bytes());
}

#[test]
fn amount_cipher_round_trip() {
    let secret = Scalar::random();
    let a = Amount::from_atomic(1_500_000_000_000);
    let enc = encrypt_amount(a, &secret);
    assert_eq!(enc.len(), 8);
    let back = decrypt_amount(&enc, &secret);
    assert_eq!(back.as_atomic(), a.as_atomic());
}

#[test]
fn amount_cipher_masks_the_bytes() {
    let secret = Scalar::from_u64(99);
    let a = Amount::from_atomic(0);
    let enc = encrypt_amount(a, &secret);
    // The keystream is a real hash: masking zero must not give zero.
    assert_ne!(enc, vec![0u8; 8]);
}

#[test]
fn key_image_deterministic() {
    let pair = KeyPair::random();
    let k1 = key_image(pair.secret(), pair.public()).unwrap();
    let k2 = key_image(pair.secret(), pair.public()).unwrap();
    assert_eq!(k1.to_bytes(), k2.to_bytes());
}

#[test]
fn key_images_differ_across_keys() {
    let p1 = KeyPair::random();
    let p2 = KeyPair::random();
    let k1 = key_image(p1.secret(), p1.public()).unwrap();
    let k2 = key_image(p2.secret(), p1.public()).unwrap();
    assert_ne!(k1.to_bytes(), k2.to_bytes());
}

#[test]
fn signature_shape_rules() {
    assert!(check_signature_shape(RctVariant::Simple, 3, 2, 2).is_ok());
    assert!(check_signature_shape(RctVariant::Full, 11, 1, 1).is_ok());
    assert!(check_signature_shape(RctVariant::Null, 0, 0, 0).is_ok());
    assert_eq!(
        check_signature_shape(RctVariant::Simple, 0, 1, 1).unwrap_err(),
        Error::ShapeMismatch
    );
    assert_eq!(
        check_signature_shape(RctVariant::Full, 3, 0, 0).unwrap_err(),
        Error::ShapeMismatch
    );
    assert_eq!(
        check_signature_shape(RctVariant::Simple, 3, 1, 2).unwrap_err(),
        Error::ShapeMismatch
    );
    assert_eq!(
        check_signature_shape(RctVariant::Null, 1, 0, 0).unwrap_err(),
        Error::ShapeMismatch
    );
}
